//! The bencoded bodies the tracker answers an announce with.
use vstd::prelude::*;
use vstd::utf8::*;
use crate::ipv4::{
    format_ipv4, lemma_format_ipv4_ascii, split_bytes, lemma_ipv4_round_trip, parse_ipv4, spec_parse_ipv4,
};
use crate::reply::compact_address;
use crate::store::{BtPeer, PeerView};
use crate::text::{
    decimal, lemma_ascii_utf8, push_bytes, push_decimal, push_signed_decimal, signed_decimal,
};

verus! {

/// A bencoded byte string: its length in decimal, `:`, the bytes.
pub open spec fn bstring(b: Seq<u8>) -> Seq<u8> {
    decimal(b.len()) + seq![58u8] + b
}

/// A bencoded integer.
pub open spec fn binteger(n: int) -> Seq<u8> {
    seq![105u8] + signed_decimal(n) + seq![101u8]
}

/// The body of a refused announce: a dictionary whose only key is
/// `failure reason`.
pub open spec fn spec_failure_body(reason: Seq<u8>) -> Seq<u8> {
    seq![100u8] + bstring(encode_utf8("failure reason"@)) + bstring(reason) + seq![101u8]
}

/// The six bytes of a peer in a compact peer list (four octets, the port
/// big-endian); nothing for a peer whose address is not IPv4.
pub open spec fn compact_entry(p: PeerView) -> Seq<u8> {
    match spec_parse_ipv4(encode_utf8(p.ip)) {
        Some(o) => o + seq![(p.port / 256) as u8, (p.port % 256) as u8],
        None => Seq::empty(),
    }
}

/// The compact peer list: the compact entries of the peers, in order.
pub open spec fn compact_blob(ps: Seq<PeerView>) -> Seq<u8>
    decreases ps.len(),
{
    if ps.len() == 0 {
        Seq::empty()
    } else {
        compact_blob(ps.drop_last()) + compact_entry(ps.last())
    }
}

/// A peer in a dictionary peer list: its `ip` and `port` (no peer id).
pub open spec fn dict_entry(p: PeerView) -> Seq<u8> {
    seq![100u8] + bstring(encode_utf8("ip"@)) + bstring(encode_utf8(p.ip)) + bstring(
        encode_utf8("port"@),
    ) + binteger(p.port as int) + seq![101u8]
}

/// The dictionary entries of the peers, in order.
pub open spec fn dict_entries(ps: Seq<PeerView>) -> Seq<u8>
    decreases ps.len(),
{
    if ps.len() == 0 {
        Seq::empty()
    } else {
        dict_entries(ps.drop_last()) + dict_entry(ps.last())
    }
}

/// The body of a served announce: `interval`, `min interval`, `tracker id`,
/// `complete`, `incomplete` and `peers`, either compact or as a list of
/// dictionaries.
pub open spec fn spec_announce_body(
    interval: i64,
    min_interval: i64,
    tracker_id: Seq<u8>,
    complete: nat,
    incomplete: nat,
    peers: Seq<PeerView>,
    compact: bool,
) -> Seq<u8> {
    seq![100u8] + bstring(encode_utf8("interval"@)) + binteger(interval as int) + bstring(
        encode_utf8("min interval"@),
    ) + binteger(min_interval as int) + bstring(encode_utf8("tracker id"@)) + bstring(tracker_id)
        + bstring(encode_utf8("complete"@)) + binteger(complete as int) + bstring(
        encode_utf8("incomplete"@),
    ) + binteger(incomplete as int) + bstring(encode_utf8("peers"@)) + if compact {
        bstring(compact_blob(peers))
    } else {
        seq![108u8] + dict_entries(peers) + seq![101u8]
    } + seq![101u8]
}

/// Appends a bencoded byte string.
fn push_bstring(out: &mut Vec<u8>, b: &[u8])
    ensures
        final(out)@ == old(out)@ + bstring(b@),
{
    push_decimal(out, b.len() as u64);
    out.push(58u8);
    push_bytes(out, b);
    assert(final(out)@ =~= old(out)@ + bstring(b@));
}

/// Appends a bencoded integer.
fn push_binteger(out: &mut Vec<u8>, n: i64)
    ensures
        final(out)@ == old(out)@ + binteger(n as int),
{
    out.push(105u8);
    push_signed_decimal(out, n);
    out.push(101u8);
    assert(final(out)@ =~= old(out)@ + binteger(n as int));
}

/// Appends a bencoded non-negative integer.
fn push_uinteger(out: &mut Vec<u8>, n: u64)
    ensures
        final(out)@ == old(out)@ + binteger(n as int),
{
    out.push(105u8);
    push_decimal(out, n);
    out.push(101u8);
    assert(final(out)@ =~= old(out)@ + binteger(n as int));
}

/// The body of a refused announce carrying `reason`.
pub fn failure_body(reason: &str) -> (r: Vec<u8>)
    ensures
        r@ == spec_failure_body(encode_utf8(reason@)),
{
    let mut body: Vec<u8> = Vec::new();
    body.push(100u8);
    push_bstring(&mut body, "failure reason".as_bytes());
    push_bstring(&mut body, reason.as_bytes());
    body.push(101u8);
    assert(body@ =~= spec_failure_body(encode_utf8(reason@)));
    body
}

/// The compact peer list of `peers`.
pub fn compact_peers(peers: &Vec<BtPeer>) -> (r: Vec<u8>)
    ensures
        r@ == compact_blob(peers@.map_values(|p: BtPeer| p@)),
{
    let ghost ps = peers@.map_values(|p: BtPeer| p@);
    let mut blob: Vec<u8> = Vec::new();
    let mut i: usize = 0;
    while i < peers.len()
        invariant
            i <= peers@.len(),
            ps == peers@.map_values(|p: BtPeer| p@),
            blob@ == compact_blob(ps.take(i as int)),
        decreases peers@.len() - i,
    {
        let peer = &peers[i];
        assert(ps.take(i + 1).drop_last() =~= ps.take(i as int));
        assert(ps.take(i + 1).last() == peer@);
        let ghost prev = blob@;
        if let Some(o) = parse_ipv4(peer.ip.as_str().as_bytes()) {
            push_bytes(&mut blob, o.as_slice());
            let port = peer.port;
            assert(port >> 8 == port / 256 && port & 0xff == port % 256) by (bit_vector);
            blob.push((port >> 8) as u8);
            blob.push((port & 0xff) as u8);
            assert(blob@ =~= prev + compact_entry(peer@));
        } else {
            assert(blob@ =~= prev + compact_entry(peer@));
        }
        i = i + 1;
    }
    assert(ps.take(i as int) =~= ps);
    blob
}

/// The body of a served announce.
pub fn announce_body(
    interval: i64,
    min_interval: i64,
    tracker_id: &str,
    complete: usize,
    incomplete: usize,
    peers: &Vec<BtPeer>,
    compact: bool,
) -> (r: Vec<u8>)
    ensures
        r@ == spec_announce_body(
            interval,
            min_interval,
            encode_utf8(tracker_id@),
            complete as nat,
            incomplete as nat,
            peers@.map_values(|p: BtPeer| p@),
            compact,
        ),
{
    let ghost ps = peers@.map_values(|p: BtPeer| p@);
    let mut body: Vec<u8> = Vec::new();
    body.push(100u8);
    push_bstring(&mut body, "interval".as_bytes());
    push_binteger(&mut body, interval);
    push_bstring(&mut body, "min interval".as_bytes());
    push_binteger(&mut body, min_interval);
    push_bstring(&mut body, "tracker id".as_bytes());
    push_bstring(&mut body, tracker_id.as_bytes());
    push_bstring(&mut body, "complete".as_bytes());
    push_uinteger(&mut body, complete as u64);
    push_bstring(&mut body, "incomplete".as_bytes());
    push_uinteger(&mut body, incomplete as u64);
    push_bstring(&mut body, "peers".as_bytes());
    let ghost head = body@;
    if compact {
        let blob = compact_peers(peers);
        push_bstring(&mut body, blob.as_slice());
    } else {
        body.push(108u8);
        let mut i: usize = 0;
        while i < peers.len()
            invariant
                i <= peers@.len(),
                ps == peers@.map_values(|p: BtPeer| p@),
                body@ == head + seq![108u8] + dict_entries(ps.take(i as int)),
            decreases peers@.len() - i,
        {
            let peer = &peers[i];
            assert(ps.take(i + 1).drop_last() =~= ps.take(i as int));
            assert(ps.take(i + 1).last() == peer@);
            let ghost prev = body@;
            body.push(100u8);
            push_bstring(&mut body, "ip".as_bytes());
            push_bstring(&mut body, peer.ip.as_str().as_bytes());
            push_bstring(&mut body, "port".as_bytes());
            push_uinteger(&mut body, peer.port as u64);
            body.push(101u8);
            assert(body@ =~= prev + dict_entry(peer@));
            i = i + 1;
        }
        assert(ps.take(i as int) =~= ps);
        body.push(101u8);
    }
    body.push(101u8);
    assert(body@ =~= spec_announce_body(
        interval,
        min_interval,
        encode_utf8(tracker_id@),
        complete as nat,
        incomplete as nat,
        ps,
        compact,
    ));
    body
}

/// A peer learned from six compact bytes of an upstream reply (its address
/// written as text, its port read big-endian) is served in a compact peer
/// list as the same six bytes.
pub proof fn lemma_compact_peer_served_back(c: Seq<u8>, ih: Seq<char>, left: Option<u64>, now: i64)
    requires
        c.len() == 6,
    ensures
        compact_entry(
            PeerView {
                info_hash: ih,
                ip: decode_utf8(compact_address(c).0),
                port: compact_address(c).1,
                left,
                last_seen: now,
            },
        ) == c,
{
    let o = c.take(4);
    let t = format_ipv4(o);
    lemma_format_ipv4_ascii(o);
    lemma_ascii_utf8(t);
    lemma_ipv4_round_trip(o);
    let port = compact_address(c).1;
    assert(port as int == c[4] as int * 256 + c[5] as int);
    assert(port / 256 == c[4] && port % 256 == c[5]);
    assert(o + seq![(port / 256) as u8, (port % 256) as u8] =~= c);
}

/// A compact peer list is six bytes per IPv4 peer, so its length is a
/// multiple of six and at most six per peer.
pub proof fn lemma_compact_blob_six(ps: Seq<PeerView>)
    ensures
        compact_blob(ps).len() % 6 == 0,
        compact_blob(ps).len() <= 6 * ps.len(),
    decreases ps.len(),
{
    if ps.len() > 0 {
        lemma_compact_blob_six(ps.drop_last());
        match spec_parse_ipv4(encode_utf8(ps.last().ip)) {
            Some(o) => {
                assert(o.len() == 4) by {
                    let parts = split_bytes(encode_utf8(ps.last().ip), 46);
                    assert(parts.len() == 4);
                }
            },
            None => {},
        }
    }
}

/// The peers of `ps` whose address is IPv4, in order.
pub open spec fn v4_peers(ps: Seq<PeerView>) -> Seq<PeerView>
    decreases ps.len(),
{
    if ps.len() == 0 {
        Seq::empty()
    } else {
        let r = v4_peers(ps.drop_last());
        if spec_parse_ipv4(encode_utf8(ps.last().ip)) is Some {
            r.push(ps.last())
        } else {
            r
        }
    }
}

/// The compact peer list holds six bytes for every IPv4 peer, however many
/// there are: the `k`-th six bytes are the four octets of the `k`-th IPv4
/// peer's address and its port, big-endian.
pub proof fn lemma_compact_blob_entries(ps: Seq<PeerView>)
    ensures
        compact_blob(ps).len() == 6 * v4_peers(ps).len(),
        forall|k: int|
            #![trigger v4_peers(ps)[k]]
            0 <= k < v4_peers(ps).len() ==> compact_blob(ps).subrange(6 * k, 6 * k + 6)
                == spec_parse_ipv4(encode_utf8(v4_peers(ps)[k].ip))->Some_0 + seq![
                (v4_peers(ps)[k].port / 256) as u8,
                (v4_peers(ps)[k].port % 256) as u8,
            ],
    decreases ps.len(),
{
    if ps.len() > 0 {
        let d = ps.drop_last();
        lemma_compact_blob_entries(d);
        let b0 = compact_blob(d);
        let e = compact_entry(ps.last());
        let v0 = v4_peers(d);
        let b = compact_blob(ps);
        assert(b == b0 + e);
        match spec_parse_ipv4(encode_utf8(ps.last().ip)) {
            Some(o) => {
                assert(o.len() == 4);
                assert(e.len() == 6);
                let v = v4_peers(ps);
                assert(v == v0.push(ps.last()));
                assert forall|k: int| #![trigger v4_peers(ps)[k]] 0 <= k < v.len() implies b.subrange(
                    6 * k,
                    6 * k + 6,
                ) == spec_parse_ipv4(encode_utf8(v[k].ip))->Some_0 + seq![
                    (v[k].port / 256) as u8,
                    (v[k].port % 256) as u8,
                ] by {
                    if k < v0.len() {
                        assert(v[k] == v0[k]);
                        assert(b.subrange(6 * k, 6 * k + 6) =~= b0.subrange(6 * k, 6 * k + 6));
                        assert(v0[k] == v4_peers(d)[k]);
                    } else {
                        assert(v[k] == ps.last());
                        assert(b.subrange(6 * k, 6 * k + 6) =~= e);
                    }
                }
            },
            None => {
                assert(e.len() == 0);
                assert(b =~= b0);
            },
        }
    }
}

} // verus!
