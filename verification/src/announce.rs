//! The decisions of one announce: which requests are refused and why, where
//! the client is, what the store records, and what is asked of the upstream
//! trackers on the client's behalf.
use vstd::prelude::*;
use vstd::utf8::*;
use crate::encoding::{
    encode_lowercase, hex_decode, hex_encode, hex_lower, hex_pairs, hex_upper, lemma_hex_round_trip,
    percent_decode, percent_decoded, percent_lower,
};
use crate::query::{
    all_hex, first_forwarded, lemma_hex_forms_accepted, lemma_hex_info_hash_accepted,
    lemma_percent_info_hash_accepted, parse_info_hash, query_value, raw_query_param, spec_parse_info_hash,
    split_once_spec, InfoHashError,
};
use crate::store::{
    has_peer, hashes, lemma_remove_then_lookup, lemma_remove_wf, lemma_upsert_then_lookup,
    lemma_upsert_wf, min_len, now_ts, peer_index, peers_of, store_remove, store_upsert, store_wf,
    PeerStore, StoreView,
};
use crate::text::{ascii_chars, is_localhost, lemma_ascii_utf8, text_opt, trim_chars};
use crate::upstream::{FastMode, UpstreamAnnounceParams};

verus! {

/// Why an announce is refused.
#[derive(Debug, Clone, Copy, PartialEq, Eq)]
pub enum AnnounceError {
    /// The info-hash could not be read.
    BadInfoHash(InfoHashError),
    /// The info-hash was read but is not 20 bytes long.
    InfoHashLength,
    /// No `peer_id` was given.
    MissingPeerId,
    /// The `peer_id` decodes to nothing.
    BadPeerIdLength,
    /// No `port`, or port 0.
    InvalidPort,
}

/// The failure reason sent back for a refused announce.
pub open spec fn failure_reason(e: AnnounceError) -> Seq<char> {
    match e {
        AnnounceError::BadInfoHash(_) => "bad info_hash format"@,
        AnnounceError::InfoHashLength => "info_hash must be 20 bytes"@,
        AnnounceError::MissingPeerId => "missing peer_id"@,
        AnnounceError::BadPeerIdLength => "bad peer_id length"@,
        AnnounceError::InvalidPort => "missing or invalid port"@,
    }
}

impl AnnounceError {
    /// The failure reason sent back to the client.
    pub fn reason(&self) -> (r: String)
        ensures
            r@ == failure_reason(*self),
    {
        match self {
            AnnounceError::BadInfoHash(_) => "bad info_hash format".to_owned(),
            AnnounceError::InfoHashLength => "info_hash must be 20 bytes".to_owned(),
            AnnounceError::MissingPeerId => "missing peer_id".to_owned(),
            AnnounceError::BadPeerIdLength => "bad peer_id length".to_owned(),
            AnnounceError::InvalidPort => "missing or invalid port".to_owned(),
        }
    }
}

/// An announce that was accepted.
pub struct ValidAnnounce {
    /// The 20 raw bytes of the info-hash.
    pub info_hash_raw: Vec<u8>,
    /// The info-hash in lowercase hexadecimal, the key of the store.
    pub info_hash_hex: String,
    /// The decoded peer id.
    pub peer_id_raw: Vec<u8>,
    /// The client's port.
    pub port: u16,
}

/// The value an announce parameter is read from: its raw value in the query
/// string when there is one, else its decoded value.
pub open spec fn param_text(
    query: Option<Seq<char>>,
    key: Seq<char>,
    decoded: Option<Seq<char>>,
) -> Option<Seq<char>> {
    match query {
        Some(q) => match query_value(q, key) {
            Some(v) => Some(v),
            None => decoded,
        },
        None => decoded,
    }
}

/// What an announce is read as: the raw info-hash, the decoded peer id and
/// the port, or the reason it is refused, checked in that order.
pub open spec fn spec_validate_announce(
    query: Option<Seq<char>>,
    info_hash: Option<Seq<char>>,
    ih: Option<Seq<char>>,
    peer_id: Option<Seq<char>>,
    port: Option<u16>,
) -> Result<(Seq<u8>, Seq<u8>, u16), AnnounceError> {
    match spec_parse_info_hash(
        param_text(query, "info_hash"@, info_hash),
        param_text(query, "ih"@, ih),
    ) {
        Err(e) => Err(AnnounceError::BadInfoHash(e)),
        Ok(raw) => if raw.len() != 20 {
            Err(AnnounceError::InfoHashLength)
        } else {
            match peer_id {
                None => Err(AnnounceError::MissingPeerId),
                Some(p) => {
                    let pid = percent_decoded(encode_utf8(p));
                    if pid.len() == 0 {
                        Err(AnnounceError::BadPeerIdLength)
                    } else {
                        match port {
                            Some(n) => if n > 0 {
                                Ok((raw, pid, n))
                            } else {
                                Err(AnnounceError::InvalidPort)
                            },
                            None => Err(AnnounceError::InvalidPort),
                        }
                    }
                },
            }
        },
    }
}

/// The raw value of `key` in the query string, else the decoded parameter.
fn param_value(query: &Option<String>, key: &str, decoded: &Option<String>) -> (r: Option<String>)
    ensures
        text_opt(r) == param_text(text_opt(*query), key@, text_opt(*decoded)),
{
    match query {
        Some(q) => match raw_query_param(q.as_str(), key) {
            Some(v) => Some(v),
            None => match decoded {
                Some(d) => Some(d.clone()),
                None => None,
            },
        },
        None => match decoded {
            Some(d) => Some(d.clone()),
            None => None,
        },
    }
}

/// Checks an announce: `query` is the raw query string of the request, the
/// other arguments its decoded parameters. The info-hash is read from the
/// raw `info_hash` (else `ih`) value of the query string, falling back to the
/// decoded parameter.
pub fn validate_announce(
    query: &Option<String>,
    info_hash: &Option<String>,
    ih: &Option<String>,
    peer_id: &Option<String>,
    port: Option<u16>,
) -> (r: Result<ValidAnnounce, AnnounceError>)
    ensures
        match r {
            Ok(v) => {
                &&& spec_validate_announce(
                    text_opt(*query),
                    text_opt(*info_hash),
                    text_opt(*ih),
                    text_opt(*peer_id),
                    port,
                ) == Ok::<(Seq<u8>, Seq<u8>, u16), AnnounceError>((v.info_hash_raw@, v.peer_id_raw@, v.port))
                &&& v.info_hash_hex@ == ascii_chars(hex_lower(v.info_hash_raw@))
            },
            Err(e) => spec_validate_announce(
                text_opt(*query),
                text_opt(*info_hash),
                text_opt(*ih),
                text_opt(*peer_id),
                port,
            ) == Err::<(Seq<u8>, Seq<u8>, u16), AnnounceError>(e),
        },
{
    let ih_text = param_value(query, "info_hash", info_hash);
    let alias_text = param_value(query, "ih", ih);
    let info_hash_raw = match parse_info_hash(&ih_text, &alias_text) {
        Ok(v) => v,
        Err(e) => {
            return Err(AnnounceError::BadInfoHash(e));
        },
    };
    if info_hash_raw.len() != 20 {
        return Err(AnnounceError::InfoHashLength);
    }
    let info_hash_hex = hex_encode(info_hash_raw.as_slice());
    let peer_id_raw = match peer_id {
        Some(s) => percent_decode(s.as_str().as_bytes()),
        None => {
            return Err(AnnounceError::MissingPeerId);
        },
    };
    if peer_id_raw.len() == 0 {
        return Err(AnnounceError::BadPeerIdLength);
    }
    let port = match port {
        Some(p) => {
            if p > 0 {
                p
            } else {
                return Err(AnnounceError::InvalidPort);
            }
        },
        None => {
            return Err(AnnounceError::InvalidPort);
        },
    };
    Ok(ValidAnnounce { info_hash_raw, info_hash_hex, peer_id_raw, port })
}

/// The client's address: the `ip` parameter, else the `CF-Connecting-IP`
/// header, else the first address of `X-Forwarded-For`, else `X-Real-IP`,
/// else the address of the connection.
pub open spec fn spec_client_ip(
    ip_param: Option<Seq<char>>,
    cf_connecting_ip: Option<Seq<char>>,
    forwarded_for: Option<Seq<char>>,
    real_ip: Option<Seq<char>>,
    remote: Seq<char>,
) -> Seq<char> {
    match ip_param {
        Some(s) => s,
        None => match cf_connecting_ip {
            Some(s) => s,
            None => match forwarded_for {
                Some(s) => trim_chars(
                    match split_once_spec(s, ',') {
                        Some((a, _)) => a,
                        None => s,
                    },
                ),
                None => match real_ip {
                    Some(s) => s,
                    None => remote,
                },
            },
        },
    }
}

/// Where the client is, as the tracker records it.
pub fn client_ip(
    ip_param: &Option<String>,
    cf_connecting_ip: &Option<String>,
    forwarded_for: &Option<String>,
    real_ip: &Option<String>,
    remote: &str,
) -> (r: String)
    ensures
        r@ == spec_client_ip(
            text_opt(*ip_param),
            text_opt(*cf_connecting_ip),
            text_opt(*forwarded_for),
            text_opt(*real_ip),
            remote@,
        ),
{
    if let Some(s) = ip_param {
        return s.clone();
    }
    if let Some(s) = cf_connecting_ip {
        return s.clone();
    }
    if let Some(s) = forwarded_for {
        return first_forwarded(s.as_str());
    }
    if let Some(s) = real_ip {
        return s.clone();
    }
    remote.to_owned()
}

/// The announce carries the event `name`.
pub open spec fn event_is(event: Option<Seq<char>>, name: Seq<char>) -> bool {
    event == Some(name)
}

/// The announce carries the event `name`.
fn has_event(event: &Option<String>, name: &str) -> (r: bool)
    ensures
        r == event_is(text_opt(*event), name@),
{
    match event {
        Some(e) => crate::query::str_equal(e.as_str(), name),
        None => false,
    }
}

/// What is left to download as the tracker records it: nothing after a
/// `completed` event, else what the client said.
pub open spec fn spec_effective_left(left: Option<u64>, event: Option<Seq<char>>) -> Option<u64> {
    if event_is(event, "completed"@) {
        Some(0)
    } else {
        left
    }
}

/// What is left to download as the tracker records it.
pub fn effective_left(left: Option<u64>, event: &Option<String>) -> (r: Option<u64>)
    ensures
        r == spec_effective_left(left, text_opt(*event)),
{
    if has_event(event, "completed") {
        Some(0)
    } else {
        left
    }
}

/// The announce says the client stopped.
pub fn is_stopped(event: &Option<String>) -> (r: bool)
    ensures
        r == event_is(text_opt(*event), "stopped"@),
{
    has_event(event, "stopped")
}

/// The store after an announce at time `now`: a stopped client is
/// forgotten; any other is recorded with what it has left, except a client
/// at `127.0.0.1`, which is never recorded.
pub open spec fn spec_record_announce(
    s: StoreView,
    ih_hex: Seq<char>,
    ip: Seq<char>,
    port: u16,
    left: Option<u64>,
    event: Option<Seq<char>>,
    now: i64,
) -> StoreView {
    if event_is(event, "stopped"@) {
        store_remove(s, ih_hex, ip, port)
    } else if ip == "127.0.0.1"@ {
        s
    } else {
        store_upsert(s, ih_hex, ip, port, spec_effective_left(left, event), now)
    }
}

/// Records an announce in the store at time `now`.
pub fn record_announce_at(
    store: &mut PeerStore,
    ih_hex: &str,
    ip: &str,
    port: u16,
    left: Option<u64>,
    event: &Option<String>,
    now: i64,
)
    requires
        old(store).wf(),
    ensures
        final(store).wf(),
        final(store)@ == spec_record_announce(old(store)@, ih_hex@, ip@, port, left, text_opt(*event), now),
{
    if is_stopped(event) {
        store.remove_peer(ih_hex, ip, port);
    } else if !is_localhost(ip) {
        let l = effective_left(left, event);
        store.upsert_peer_at(ih_hex, ip, port, l, now);
    }
}

/// Records an announce in the store at the clock's current time.
pub fn record_announce(
    store: &mut PeerStore,
    ih_hex: &str,
    ip: &str,
    port: u16,
    left: Option<u64>,
    event: &Option<String>,
)
    requires
        old(store).wf(),
    ensures
        final(store).wf(),
        exists|now: i64|
            final(store)@ == #[trigger] spec_record_announce(
                old(store)@,
                ih_hex@,
                ip@,
                port,
                left,
                text_opt(*event),
                now,
            ),
{
    let now = now_ts();
    record_announce_at(store, ih_hex, ip, port, left, event, now);
}

/// How many peers an announce is answered with: what it asked for (50 when
/// it did not say), at most 200.
pub fn clamp_numwant(numwant: Option<usize>) -> (r: usize)
    ensures
        r == match numwant {
            Some(n) => if n < 200 {
                n
            } else {
                200
            },
            None => 50,
        },
{
    let n = match numwant {
        Some(n) => n,
        None => 50,
    };
    if n < 200 {
        n
    } else {
        200
    }
}

/// The upstream fetch mode of one announce: a torrent the store knows no
/// peer of waits for its fetch to end instead of waiting a bounded time.
pub fn effective_fast_mode(known_peers: usize, mode: FastMode) -> (r: FastMode)
    ensures
        r == if known_peers == 0 && mode == FastMode::Timeout {
            FastMode::Wait
        } else {
            mode
        },
{
    if known_peers == 0 {
        match mode {
            FastMode::Timeout => FastMode::Wait,
            _ => mode,
        }
    } else {
        mode
    }
}

/// How many HTTP trackers an announce's own fetch asks: the configured
/// batch, but at least five.
pub fn fast_batch_size(batch: usize) -> (r: usize)
    ensures
        r == if batch < 5 {
            5
        } else {
            batch
        },
{
    if batch < 5 {
        5
    } else {
        batch
    }
}

/// The steps of serving an accepted announce, in the order they are taken.
#[derive(Clone, Copy, Debug, PartialEq, Eq)]
pub enum AnnounceStep {
    /// Record the announce in the store.
    Record,
    /// Count the peers the store knows of the torrent (up to 3).
    CountKnown,
    /// Run the announce's own upstream fetch in this mode.
    FastFetch(FastMode),
    /// Forget the peers not seen within their time to live.
    Prune,
    /// List up to the number of peers the client wants.
    List,
    /// Ask every upstream tracker, for a bounded time.
    OnDemand,
    /// List the peers again after that fetch.
    Relist,
    /// Count seeders and leechers.
    Stats,
    /// Answer the client.
    Respond,
}

/// How far along the steps are.
pub open spec fn step_rank(s: AnnounceStep) -> nat {
    match s {
        AnnounceStep::Record => 0,
        AnnounceStep::CountKnown => 1,
        AnnounceStep::FastFetch(_) => 2,
        AnnounceStep::Prune => 3,
        AnnounceStep::List => 4,
        AnnounceStep::OnDemand => 5,
        AnnounceStep::Relist => 6,
        AnnounceStep::Stats => 7,
        AnnounceStep::Respond => 8,
    }
}

/// The step after `step`. `found` is what the step just taken counted: the
/// peers known after `CountKnown`, the peers listed after `List`. The fetch
/// mode follows from the known peers and the configured mode; the fetch from
/// every upstream tracker is made when the list holds fewer than half the
/// peers wanted.
pub open spec fn spec_announce_next(
    step: AnnounceStep,
    found: usize,
    numwant: usize,
    configured: FastMode,
) -> AnnounceStep {
    match step {
        AnnounceStep::Record => AnnounceStep::CountKnown,
        AnnounceStep::CountKnown => AnnounceStep::FastFetch(
            if found == 0 && configured == FastMode::Timeout {
                FastMode::Wait
            } else {
                configured
            },
        ),
        AnnounceStep::FastFetch(_) => AnnounceStep::Prune,
        AnnounceStep::Prune => AnnounceStep::List,
        AnnounceStep::List => if found < numwant / 2 {
            AnnounceStep::OnDemand
        } else {
            AnnounceStep::Stats
        },
        AnnounceStep::OnDemand => AnnounceStep::Relist,
        AnnounceStep::Relist => AnnounceStep::Stats,
        AnnounceStep::Stats => AnnounceStep::Respond,
        AnnounceStep::Respond => AnnounceStep::Respond,
    }
}

/// The first step of serving an accepted announce.
pub fn announce_first() -> (r: AnnounceStep)
    ensures
        r == AnnounceStep::Record,
{
    AnnounceStep::Record
}

/// The step after `step`; every step but the answer moves further along.
pub fn announce_next(step: AnnounceStep, found: usize, numwant: usize, configured: FastMode) -> (r:
    AnnounceStep)
    ensures
        r == spec_announce_next(step, found, numwant, configured),
        step != AnnounceStep::Respond ==> step_rank(r) > step_rank(step),
{
    match step {
        AnnounceStep::Record => AnnounceStep::CountKnown,
        AnnounceStep::CountKnown => AnnounceStep::FastFetch(effective_fast_mode(found, configured)),
        AnnounceStep::FastFetch(_) => AnnounceStep::Prune,
        AnnounceStep::Prune => AnnounceStep::List,
        AnnounceStep::List => if needs_on_demand(found, numwant) {
            AnnounceStep::OnDemand
        } else {
            AnnounceStep::Stats
        },
        AnnounceStep::OnDemand => AnnounceStep::Relist,
        AnnounceStep::Relist => AnnounceStep::Stats,
        AnnounceStep::Stats => AnnounceStep::Respond,
        AnnounceStep::Respond => AnnounceStep::Respond,
    }
}

/// The event sent upstream: the client's, else `started`.
pub open spec fn upstream_event(event: Option<Seq<char>>) -> Seq<char> {
    match event {
        Some(e) => e,
        None => "started"@,
    }
}

fn event_or_started(event: &Option<String>) -> (r: String)
    ensures
        r@ == upstream_event(text_opt(*event)),
{
    match event {
        Some(e) => e.clone(),
        None => "started".to_owned(),
    }
}

/// A count as a `u32`, the largest `u32` when it does not fit.
pub fn saturating_u32(n: usize) -> (r: u32)
    ensures
        r as int == if n > u32::MAX {
            u32::MAX as int
        } else {
            n as int
        },
{
    if n > u32::MAX as usize {
        u32::MAX
    } else {
        n as u32
    }
}

/// The parameters of the fetch an announce starts at once: the client's
/// peer id when it is 20 bytes (else the tracker's own), the client's port,
/// what it has left (else `default_left`), its event (else `started`), and
/// the smaller of `max_numwant` and what the client wants.
pub fn fast_params(
    peer_id_raw: &[u8],
    own_peer_id: &str,
    port: u16,
    left: Option<u64>,
    event: &Option<String>,
    default_left: u64,
    max_numwant: u32,
    numwant: usize,
) -> (r: UpstreamAnnounceParams)
    ensures
        r.peer_id_encoded@ == if peer_id_raw@.len() == 20 {
            ascii_chars(percent_lower(peer_id_raw@))
        } else {
            own_peer_id@
        },
        r.port == port,
        r.left == match left {
            Some(l) => l,
            None => default_left,
        },
        r.event@ == upstream_event(text_opt(*event)),
        r.numwant as int == if max_numwant < numwant {
            max_numwant as int
        } else {
            numwant as int
        },
{
    let peer_id_encoded = if peer_id_raw.len() == 20 {
        encode_lowercase(peer_id_raw)
    } else {
        own_peer_id.to_owned()
    };
    let l = match left {
        Some(l) => l,
        None => default_left,
    };
    let wanted = saturating_u32(numwant);
    UpstreamAnnounceParams {
        peer_id_encoded,
        port,
        left: l,
        event: event_or_started(event),
        numwant: if max_numwant < wanted {
            max_numwant
        } else {
            wanted
        },
    }
}

/// The store answers with fewer than half the peers the client wants, so
/// the tracker asks every upstream tracker before answering.
pub fn needs_on_demand(found: usize, numwant: usize) -> (r: bool)
    ensures
        r == (found < numwant / 2),
{
    found < numwant / 2
}

/// The parameters of the fetch from every upstream tracker: the client's
/// peer id, port, what it has left (else 0), its event (else `started`) and
/// the number of peers it wants.
pub fn on_demand_params(
    peer_id_raw: &[u8],
    port: u16,
    left: Option<u64>,
    event: &Option<String>,
    numwant: usize,
) -> (r: UpstreamAnnounceParams)
    ensures
        r.peer_id_encoded@ == ascii_chars(percent_lower(peer_id_raw@)),
        r.port == port,
        r.left == match left {
            Some(l) => l,
            None => 0,
        },
        r.event@ == upstream_event(text_opt(*event)),
        r.numwant as int == if numwant > u32::MAX {
            u32::MAX as int
        } else {
            numwant as int
        },
{
    UpstreamAnnounceParams {
        peer_id_encoded: encode_lowercase(peer_id_raw),
        port,
        left: match left {
            Some(l) => l,
            None => 0,
        },
        event: event_or_started(event),
        numwant: saturating_u32(numwant),
    }
}

/// The parameters of the periodic refresh of a known torrent: the tracker's
/// own peer id, port 6881, 16384 bytes left, event `started`, 200 peers.
pub fn poll_params(own_peer_id: &str) -> (r: UpstreamAnnounceParams)
    ensures
        r.peer_id_encoded@ == own_peer_id@,
        r.port == 6881,
        r.left == 16384,
        r.event@ == "started"@,
        r.numwant == 200,
{
    UpstreamAnnounceParams {
        peer_id_encoded: own_peer_id.to_owned(),
        port: 6881,
        left: 16384,
        event: "started".to_owned(),
        numwant: 200,
    }
}

/// The peer list of an announce is compact unless the client asked
/// otherwise with a value other than 1.
pub fn compact_wanted(compact: Option<u8>) -> (r: bool)
    ensures
        r == match compact {
            Some(c) => c == 1,
            None => true,
        },
{
    match compact {
        Some(c) => c == 1,
        None => true,
    }
}

/// An info-hash text that `hex::decode` accepts: an even number of
/// hexadecimal digits.
pub open spec fn hex_decodable(h: Seq<char>) -> bool {
    encode_utf8(h).len() % 2 == 0 && all_hex(encode_utf8(h))
}

/// The torrents of a periodic refresh, each with its raw info-hash: those of
/// `hs` whose text decodes.
pub open spec fn poll_list(hs: Seq<Seq<char>>) -> Seq<(Seq<char>, Seq<u8>)>
    decreases hs.len(),
{
    if hs.len() == 0 {
        Seq::empty()
    } else {
        let r = poll_list(hs.drop_last());
        if hex_decodable(hs.last()) {
            r.push((hs.last(), hex_pairs(encode_utf8(hs.last()))))
        } else {
            r
        }
    }
}

/// The model of a list of torrents with their raw info-hashes.
pub open spec fn targets_view(v: Seq<(String, Vec<u8>)>) -> Seq<(Seq<char>, Seq<u8>)> {
    v.map_values(|e: (String, Vec<u8>)| (e.0@, e.1@))
}

/// The torrents the periodic refresh asks the upstream trackers about: the
/// first 200 the store knows, with their raw info-hashes.
pub fn poll_targets(store: &PeerStore) -> (r: Vec<(String, Vec<u8>)>)
    ensures
        targets_view(r@) == poll_list(hashes(store@).take(min_len(200, store@.len()))),
{
    let list = store.list_all_infohashes(200);
    let ghost hs = list@.map_values(|h: String| h@);
    let mut out: Vec<(String, Vec<u8>)> = Vec::new();
    let mut i: usize = 0;
    while i < list.len()
        invariant
            i <= list@.len(),
            hs == list@.map_values(|h: String| h@),
            targets_view(out@) == poll_list(hs.take(i as int)),
        decreases list@.len() - i,
    {
        assert(hs.take(i + 1).drop_last() =~= hs.take(i as int));
        assert(hs[i as int] == list@[i as int]@);
        let h = &list[i];
        match hex_decode(h.as_str().as_bytes()) {
            Ok(raw) => {
                let ghost prev = targets_view(out@);
                assert(hex_decodable(h@));
                out.push((h.clone(), raw));
                assert(targets_view(out@) =~= prev.push((h@, hex_pairs(encode_utf8(h@)))));
            },
            Err(_) => {
                assert(!hex_decodable(h@));
            },
        }
        i = i + 1;
    }
    assert(hs.take(i as int) =~= hs);
    out
}

/// Recording an announce keeps the store well formed.
pub proof fn lemma_record_wf(
    s: StoreView,
    ih: Seq<char>,
    ip: Seq<char>,
    port: u16,
    left: Option<u64>,
    event: Option<Seq<char>>,
    now: i64,
)
    requires
        store_wf(s),
    ensures
        store_wf(spec_record_announce(s, ih, ip, port, left, event, now)),
{
    lemma_remove_wf(s, ih, ip, port);
    lemma_upsert_wf(s, ih, ip, port, spec_effective_left(left, event), now);
}

/// After an announce that is not `stopped`, from anywhere but `127.0.0.1`,
/// the client is among the torrent's peers, seen at the time of the
/// announce, with what it said it has left (nothing after `completed`).
pub proof fn lemma_announce_then_listed(
    s: StoreView,
    ih: Seq<char>,
    ip: Seq<char>,
    port: u16,
    left: Option<u64>,
    event: Option<Seq<char>>,
    now: i64,
)
    requires
        store_wf(s),
        !event_is(event, "stopped"@),
        ip != "127.0.0.1"@,
    ensures
        ({
            let b = peers_of(spec_record_announce(s, ih, ip, port, left, event, now), ih);
            &&& has_peer(b, ip, port)
            &&& b[peer_index(b, ip, port)].last_seen == now
            &&& (spec_effective_left(left, event) is Some ==> b[peer_index(b, ip, port)].left
                == spec_effective_left(left, event))
        }),
{
    lemma_upsert_then_lookup(s, ih, ip, port, spec_effective_left(left, event), now);
}

/// A client that announces `completed` is recorded as a seeder: nothing
/// left to download.
pub proof fn lemma_completed_is_seeder(
    s: StoreView,
    ih: Seq<char>,
    ip: Seq<char>,
    port: u16,
    left: Option<u64>,
    now: i64,
)
    requires
        store_wf(s),
        ip != "127.0.0.1"@,
    ensures
        ({
            let b = peers_of(
                spec_record_announce(s, ih, ip, port, left, Some("completed"@), now),
                ih,
            );
            has_peer(b, ip, port) && b[peer_index(b, ip, port)].left == Some(0u64)
        }),
{
    assert("completed"@ != "stopped"@) by {
        reveal_strlit("completed");
        reveal_strlit("stopped");
        assert("completed"@[0] != "stopped"@[0]);
    }
    lemma_announce_then_listed(s, ih, ip, port, left, Some("completed"@), now);
}

/// After a `stopped` announce the client is no longer a peer of the torrent.
pub proof fn lemma_stopped_forgets(
    s: StoreView,
    ih: Seq<char>,
    ip: Seq<char>,
    port: u16,
    left: Option<u64>,
    now: i64,
)
    requires
        store_wf(s),
    ensures
        !has_peer(
            peers_of(spec_record_announce(s, ih, ip, port, left, Some("stopped"@), now), ih),
            ip,
            port,
        ),
{
    lemma_remove_then_lookup(s, ih, ip, port);
}

/// An announce from `127.0.0.1` that is not `stopped` leaves the store as
/// it was.
pub proof fn lemma_localhost_never_recorded(
    s: StoreView,
    ih: Seq<char>,
    port: u16,
    left: Option<u64>,
    event: Option<Seq<char>>,
    now: i64,
)
    requires
        !event_is(event, "stopped"@),
    ensures
        spec_record_announce(s, ih, "127.0.0.1"@, port, left, event, now) == s,
{
}

/// The store's key of a torrent, the lowercase hexadecimal text of its raw
/// info-hash, decodes back to that info-hash: the periodic refresh asks
/// about the torrent the clients announced.
pub proof fn lemma_hex_key_round_trip(raw: Seq<u8>)
    ensures
        hex_decodable(ascii_chars(hex_lower(raw))),
        hex_pairs(encode_utf8(ascii_chars(hex_lower(raw)))) == raw,
{
    lemma_hex_round_trip(raw);
    lemma_ascii_utf8(hex_lower(raw));
}

/// An announce reads the same whichever form its info-hash takes: 40
/// hexadecimal digits in either case, the same after `urn:btih:`, or the 20
/// bytes percent-encoded. Each is accepted or refused alike, and when
/// accepted gives the same raw info-hash, so the same store key.
pub proof fn lemma_info_hash_forms_announce_alike(
    raw: Seq<u8>,
    peer_id: Option<Seq<char>>,
    port: Option<u16>,
)
    requires
        raw.len() == 20,
    ensures
        ({
            let v = spec_validate_announce(None, Some(ascii_chars(hex_lower(raw))), None, peer_id, port);
            &&& spec_validate_announce(None, Some(ascii_chars(hex_upper(raw))), None, peer_id, port) == v
            &&& spec_validate_announce(
                None,
                Some("urn:btih:"@ + ascii_chars(hex_lower(raw))),
                None,
                peer_id,
                port,
            ) == v
            &&& spec_validate_announce(
                None,
                Some("urn:btih:"@ + ascii_chars(hex_upper(raw))),
                None,
                peer_id,
                port,
            ) == v
            &&& spec_validate_announce(None, Some(ascii_chars(percent_lower(raw))), None, peer_id, port)
                == v
            &&& v matches Ok(r) ==> r.0 == raw
        }),
{
    lemma_hex_info_hash_accepted(raw);
    lemma_hex_forms_accepted(raw);
    lemma_percent_info_hash_accepted(raw);
}

/// The texts that name the 20 bytes `raw` as an info-hash: 40 hexadecimal
/// digits in either case, the same after `urn:btih:`, or each byte
/// percent-encoded.
pub open spec fn info_hash_form(raw: Seq<u8>, t: Seq<char>) -> bool {
    ||| t == ascii_chars(hex_lower(raw))
    ||| t == ascii_chars(hex_upper(raw))
    ||| t == "urn:btih:"@ + ascii_chars(hex_lower(raw))
    ||| t == "urn:btih:"@ + ascii_chars(hex_upper(raw))
    ||| t == ascii_chars(percent_lower(raw))
}

/// Whichever form names the info-hash of an announce, raw in the query
/// string or as a decoded parameter, and whatever `ih` says, the announce
/// reads as the one with 40 lowercase hexadecimal digits: accepted or
/// refused alike, and when accepted with the same raw info-hash, so the same
/// store key.
pub proof fn lemma_info_hash_form_announce(
    raw: Seq<u8>,
    query: Option<Seq<char>>,
    info_hash: Option<Seq<char>>,
    ih: Option<Seq<char>>,
    peer_id: Option<Seq<char>>,
    port: Option<u16>,
)
    requires
        raw.len() == 20,
        param_text(query, "info_hash"@, info_hash) matches Some(t) && info_hash_form(raw, t),
    ensures
        spec_validate_announce(query, info_hash, ih, peer_id, port) == spec_validate_announce(
            None,
            Some(ascii_chars(hex_lower(raw))),
            None,
            peer_id,
            port,
        ),
{
    lemma_info_hash_forms_announce_alike(raw, peer_id, port);
    let t = param_text(query, "info_hash"@, info_hash)->Some_0;
    assert(spec_parse_info_hash(Some(t), param_text(query, "ih"@, ih)) == spec_parse_info_hash(
        Some(t),
        None,
    ));
    assert(param_text(None, "info_hash"@, Some(t)) == Some(t));
    assert(spec_validate_announce(query, info_hash, ih, peer_id, port) == spec_validate_announce(
        None,
        Some(t),
        None,
        peer_id,
        port,
    ));
}

} // verus!
