//! Downloading the list of upstream trackers: each URL in turn, a few
//! attempts each with a growing pause between them, another TLS client when
//! a request fails on TLS, until one download succeeds.
use vstd::prelude::*;
use crate::upstream::{pow2, retry_backoff_ms};

verus! {

/// Where a download stands: the URL and attempt being made, and whether the
/// other TLS client has been used on that attempt.
#[derive(Clone, Copy, Debug, PartialEq, Eq)]
pub struct DownloadPos {
    pub url: usize,
    pub attempt: usize,
    pub native: bool,
}

/// What a request for the list came to.
#[derive(Clone, Copy, Debug, PartialEq, Eq)]
pub enum FetchOutcome {
    /// The server answered with a success status.
    Success,
    /// The server answered with another status.
    BadStatus,
    /// No answer; `tls` when the failure was a TLS one.
    TransportError { tls: bool },
}

/// What to do next.
#[derive(Clone, Copy, Debug, PartialEq, Eq)]
pub enum DownloadAction {
    /// Request URL number `url`, with the other TLS client when `native`.
    Get { url: usize, native: bool },
    /// Read the answer just received and write it to the list file.
    WriteBody,
    /// Pause `sleep_ms` milliseconds, then request the URL of the new
    /// position with the usual client.
    Retry { sleep_ms: u64 },
    /// Pause `sleep_ms` milliseconds, then report the last error: every
    /// attempt failed.
    GiveUp { sleep_ms: u64 },
    /// Report that there was no URL to try.
    Fail,
}

/// How a download starts: the first URL, first attempt; nothing to do
/// without a URL.
pub open spec fn spec_download_start(n_urls: usize) -> (DownloadPos, DownloadAction) {
    let pos = DownloadPos { url: 0, attempt: 0, native: false };
    if n_urls == 0 {
        (pos, DownloadAction::Fail)
    } else {
        (pos, DownloadAction::Get { url: 0, native: false })
    }
}

/// The pause after failed attempt `attempt`, as [`retry_backoff_ms`] gives it.
pub open spec fn backoff_ms(attempt: usize) -> u64 {
    (500 * pow2(
        if attempt < 8 {
            attempt as nat
        } else {
            8
        },
    )) as u64
}

/// The next step after a request made at `pos` came to `outcome`: write
/// the answer on success; after a TLS failure of the usual client, with the
/// fallback on, the same URL with the other client; otherwise a pause, then
/// the next attempt at the same URL, else the first attempt at the next URL,
/// else giving up.
pub open spec fn spec_download_step(
    n_urls: usize,
    attempts: usize,
    fallback: bool,
    pos: DownloadPos,
    outcome: FetchOutcome,
) -> (DownloadPos, DownloadAction) {
    match outcome {
        FetchOutcome::Success => (pos, DownloadAction::WriteBody),
        _ => if !pos.native && fallback && outcome == (FetchOutcome::TransportError { tls: true }) {
            (
                DownloadPos { url: pos.url, attempt: pos.attempt, native: true },
                DownloadAction::Get { url: pos.url, native: true },
            )
        } else {
            let ms = backoff_ms(pos.attempt);
            if pos.attempt + 1 < attempts {
                (
                    DownloadPos { url: pos.url, attempt: (pos.attempt + 1) as usize, native: false },
                    DownloadAction::Retry { sleep_ms: ms },
                )
            } else if pos.url + 1 < n_urls {
                (
                    DownloadPos { url: (pos.url + 1) as usize, attempt: 0, native: false },
                    DownloadAction::Retry { sleep_ms: ms },
                )
            } else {
                (pos, DownloadAction::GiveUp { sleep_ms: ms })
            }
        },
    }
}

/// How far a download is from its end: requests left at most.
pub open spec fn requests_left(n_urls: usize, attempts: usize, pos: DownloadPos) -> int {
    ((n_urls - pos.url - 1) * attempts + (attempts - pos.attempt - 1)) * 2 + if pos.native {
        0int
    } else {
        1int
    }
}

/// How a download of the list from `n_urls` URLs starts.
pub fn download_start(n_urls: usize) -> (r: (DownloadPos, DownloadAction))
    ensures
        r == spec_download_start(n_urls),
{
    let pos = DownloadPos { url: 0, attempt: 0, native: false };
    if n_urls == 0 {
        (pos, DownloadAction::Fail)
    } else {
        (pos, DownloadAction::Get { url: 0, native: false })
    }
}

/// The next step of a download of the list from `n_urls` URLs, tried
/// `attempts` times each, after the request made at `pos` came to `outcome`.
/// Each step that asks for another request moves towards the end.
pub fn download_step(
    n_urls: usize,
    attempts: usize,
    fallback: bool,
    pos: DownloadPos,
    outcome: FetchOutcome,
) -> (r: (DownloadPos, DownloadAction))
    requires
        attempts >= 1,
        pos.url < n_urls,
        pos.attempt < attempts,
    ensures
        r == spec_download_step(n_urls, attempts, fallback, pos, outcome),
        r.0.url < n_urls,
        r.0.attempt < attempts,
        (r.1 is Get || r.1 is Retry) ==> 0 <= requests_left(n_urls, attempts, r.0) < requests_left(
            n_urls,
            attempts,
            pos,
        ),
{
    proof {
        let a = attempts as int;
        let u = n_urls as int;
        assert((u - pos.url - 1) * a >= 0) by (nonlinear_arith)
            requires
                u - pos.url - 1 >= 0,
                a >= 1,
        ;
        assert((u - pos.url - 1) * a == (u - (pos.url + 1) - 1) * a + a) by (nonlinear_arith);
    }
    match outcome {
        FetchOutcome::Success => (pos, DownloadAction::WriteBody),
        _ => {
            let tls_failure = match outcome {
                FetchOutcome::TransportError { tls } => tls,
                _ => false,
            };
            if !pos.native && fallback && tls_failure {
                (
                    DownloadPos { url: pos.url, attempt: pos.attempt, native: true },
                    DownloadAction::Get { url: pos.url, native: true },
                )
            } else {
                let ms = retry_backoff_ms(pos.attempt);
                if pos.attempt + 1 < attempts {
                    (
                        DownloadPos { url: pos.url, attempt: pos.attempt + 1, native: false },
                        DownloadAction::Retry { sleep_ms: ms },
                    )
                } else if pos.url + 1 < n_urls {
                    (
                        DownloadPos { url: pos.url + 1, attempt: 0, native: false },
                        DownloadAction::Retry { sleep_ms: ms },
                    )
                } else {
                    (pos, DownloadAction::GiveUp { sleep_ms: ms })
                }
            }
        },
    }
}

/// What one announce request to an upstream tracker came to.
#[derive(Clone, Copy, Debug, PartialEq, Eq)]
pub enum RequestResult {
    /// A success status, and a reply holding `peers` peers, now recorded.
    Replied { peers: usize },
    /// Another status, or a reply that could not be read.
    Refused,
    /// No answer; `tls` when the failure was a TLS one.
    TransportError { tls: bool },
}

/// A request that failed on TLS is made again with the other TLS client,
/// when the fallback is on.
pub fn needs_native_retry(fallback: bool, first: RequestResult) -> (r: bool)
    ensures
        r == (fallback && first == (RequestResult::TransportError { tls: true })),
{
    match first {
        RequestResult::TransportError { tls } => fallback && tls,
        _ => false,
    }
}

/// Whether an upstream tracker answered, and how many peers it gave: the
/// first request's reply, else the reply to the request made again with the
/// other client after a transport failure.
pub open spec fn spec_tracker_outcome(first: RequestResult, native: Option<RequestResult>) -> (
    bool,
    usize,
) {
    match first {
        RequestResult::Replied { peers } => (true, peers),
        RequestResult::Refused => (false, 0),
        RequestResult::TransportError { .. } => match native {
            Some(RequestResult::Replied { peers }) => (true, peers),
            _ => (false, 0),
        },
    }
}

/// Whether an upstream tracker answered, and how many peers it gave.
pub fn tracker_outcome(first: RequestResult, native: Option<RequestResult>) -> (r: (bool, usize))
    ensures
        r == spec_tracker_outcome(first, native),
{
    match first {
        RequestResult::Replied { peers } => (true, peers),
        RequestResult::Refused => (false, 0),
        RequestResult::TransportError { .. } => match native {
            Some(RequestResult::Replied { peers }) => (true, peers),
            _ => (false, 0),
        },
    }
}

/// How many of the trackers answered.
pub open spec fn answered(rs: Seq<(bool, usize)>) -> nat
    decreases rs.len(),
{
    if rs.len() == 0 {
        0
    } else {
        answered(rs.drop_last()) + if rs.last().0 {
            1nat
        } else {
            0nat
        }
    }
}

/// How many peers the trackers gave, all together.
pub open spec fn peers_given(rs: Seq<(bool, usize)>) -> nat
    decreases rs.len(),
{
    if rs.len() == 0 {
        0
    } else {
        peers_given(rs.drop_last()) + rs.last().1 as nat
    }
}

proof fn lemma_answered_bound(rs: Seq<(bool, usize)>)
    ensures
        answered(rs) <= rs.len(),
    decreases rs.len(),
{
    if rs.len() > 0 {
        lemma_answered_bound(rs.drop_last());
    }
}

/// The summary of a fetch from `attempted` trackers whose outcomes are
/// `results`: how many were asked, how many answered, and how many peers
/// they gave (at most the largest `usize`).
pub fn fetch_tally(attempted: usize, results: &Vec<(bool, usize)>) -> (r: (usize, usize, usize))
    ensures
        r.0 == attempted,
        r.1 == answered(results@),
        r.2 == if peers_given(results@) > usize::MAX {
            usize::MAX as nat
        } else {
            peers_given(results@)
        },
{
    let mut ok: usize = 0;
    let mut added: usize = 0;
    let mut i: usize = 0;
    while i < results.len()
        invariant
            i <= results@.len(),
            ok == answered(results@.take(i as int)),
            added == if peers_given(results@.take(i as int)) > usize::MAX {
                usize::MAX as nat
            } else {
                peers_given(results@.take(i as int))
            },
        decreases results@.len() - i,
    {
        assert(results@.take(i + 1).drop_last() =~= results@.take(i as int));
        proof {
            lemma_answered_bound(results@.take(i as int));
        }
        if results[i].0 {
            ok = ok + 1;
        }
        added = added.saturating_add(results[i].1);
        i = i + 1;
    }
    assert(results@.take(i as int) =~= results@);
    (attempted, ok, added)
}

} // verus!
