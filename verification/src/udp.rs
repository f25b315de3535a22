//! The UDP tracker protocol (BEP 15) as the tracker speaks it to upstream
//! trackers: the address to send to, the two requests, and the replies.
use vstd::prelude::*;
use vstd::utf8::*;
use vstd::string::StringExecFns;
use crate::encoding::percent_decoded;
use crate::query::{split_once_char, split_once_spec, strip_prefix};
use crate::reply::{addrs_view, as_text, compact_addrs, compact_peer_list};
use crate::text::{parse_unsigned, parse_unsigned_text};
use crate::upstream::{be_bytes, be_value, dec_chars, decimal_string, push_be, starts_with};

verus! {

/// `s` with every leading copy of `p` removed.
pub open spec fn strip_all(s: Seq<char>, p: Seq<char>) -> Seq<char>
    decreases s.len(),
{
    if p.len() > 0 && starts_with(s, p) {
        strip_all(s.skip(p.len() as int), p)
    } else {
        s
    }
}

/// A port number as `str::parse::<u16>` reads one: an optional `+`, then
/// decimal digits worth at most 65535.
pub open spec fn parse_port(b: Seq<u8>) -> Option<u16> {
    match parse_unsigned(b, 65535) {
        Some(n) => Some(n as u16),
        None => None,
    }
}

/// The `host:port` a UDP tracker URL names: after the `udp://` prefixes, up
/// to the first `/`, the port after the first `:` (6969 when absent or not a
/// port number).
pub open spec fn spec_udp_address(tracker: Seq<char>) -> Seq<char> {
    let url = strip_all(tracker, "udp://"@);
    let host_port = match split_once_spec(url, '/') {
        Some((a, _)) => a,
        None => url,
    };
    let (host, port) = match split_once_spec(host_port, ':') {
        Some((h, p)) => (
            h,
            match parse_port(encode_utf8(p)) {
                Some(n) => n,
                None => 6969u16,
            },
        ),
        None => (host_port, 6969u16),
    };
    host + ":"@ + dec_chars(port as nat)
}

/// Reads a port number as `str::parse::<u16>` does.
pub fn parse_port_text(s: &str) -> (r: Option<u16>)
    ensures
        r == parse_port(encode_utf8(s@)),
{
    match parse_unsigned_text(s, 65535) {
        Some(v) => Some(v as u16),
        None => None,
    }
}

/// The `host:port` to send UDP tracker requests to.
pub fn udp_address(tracker: &str) -> (r: String)
    ensures
        r@ == spec_udp_address(tracker@),
{
    let mut url: &str = tracker;
    proof {
        reveal_strlit("udp://");
    }
    loop
        invariant
            strip_all(url@, "udp://"@) == strip_all(tracker@, "udp://"@),
            "udp://"@.len() == 6,
        ensures
            url@ == strip_all(tracker@, "udp://"@),
        decreases url@.len(),
    {
        match strip_prefix(url, "udp://") {
            Some(rest) => {
                url = rest;
            },
            None => {
                assert(strip_all(url@, "udp://"@) == url@);
                break;
            },
        }
    }
    assert(url@ == strip_all(tracker@, "udp://"@));
    let host_port = match split_once_char(url, '/') {
        Some((a, _)) => a,
        None => url,
    };
    let (host, port) = match split_once_char(host_port, ':') {
        Some((h, p)) => (
            h,
            match parse_port_text(p) {
                Some(n) => n,
                None => 6969u16,
            },
        ),
        None => (host_port, 6969u16),
    };
    let mut out = host.to_owned();
    out.append(":");
    out.append(decimal_string(port as u64).as_str());
    out
}

/// The connection id that opens every UDP tracker exchange.
pub open spec fn udp_protocol_id() -> nat {
    0x41727101980
}

/// The connect request: the protocol id, action 0, the transaction id.
pub fn udp_connect_request(trans_id: i32) -> (r: Vec<u8>)
    ensures
        r@ == be_bytes(udp_protocol_id(), 8) + be_bytes(0, 4) + be_bytes(trans_id as u32 as nat, 4),
{
    let mut req: Vec<u8> = Vec::new();
    push_be(&mut req, 0x41727101980u64, 8);
    push_be(&mut req, 0, 4);
    push_be(&mut req, trans_id as u32 as u64, 4);
    req
}

/// The connection id of a connect reply of `n` bytes (its bytes 8 to 15,
/// big-endian), `None` when the reply is shorter than 16 bytes.
pub fn udp_connection_id(buf: &[u8], n: usize) -> (r: Option<i64>)
    requires
        n <= buf@.len(),
    ensures
        n < 16 ==> r is None,
        n >= 16 ==> r == Some(be_value(buf@.subrange(8, 16)) as u64 as i64),
{
    if n < 16 {
        return None;
    }
    let mut v: u64 = 0;
    let mut i: usize = 8;
    while i < 16
        invariant
            8 <= i <= 16,
            16 <= buf@.len(),
            v == be_value(buf@.subrange(8, i as int)),
            v < pow256_of(i - 8int),
        decreases 16 - i,
    {
        assert(buf@.subrange(8, i + 1).drop_last() =~= buf@.subrange(8, i as int));
        proof {
            lemma_pow256_step((i - 8) as nat);
        }
        v = v * 256 + buf[i] as u64;
        i = i + 1;
    }
    Some(v as i64)
}

/// 256 to the power `k`, for the widths used here.
pub open spec fn pow256_of(k: int) -> int
    decreases k,
{
    if k <= 0 {
        1
    } else {
        256 * pow256_of(k - 1)
    }
}

proof fn lemma_pow256_step(k: nat)
    requires
        k < 8,
    ensures
        pow256_of(k as int) * 256 == pow256_of(k as int + 1),
        pow256_of(k as int + 1) <= 0x1_0000_0000_0000_0000,
    decreases 8 - k,
{
    if k < 7 {
        lemma_pow256_step(k + 1);
    } else {
        reveal_with_fuel(pow256_of, 9);
    }
}

/// The peer id sent in a UDP announce: the decoded client peer id when it is
/// 20 bytes, else the info-hash.
pub open spec fn udp_peer_id(ih_raw: Seq<u8>, peer_id_encoded: Seq<char>) -> Seq<u8> {
    let d = percent_decoded(encode_utf8(peer_id_encoded));
    if d.len() == 20 {
        d
    } else {
        ih_raw
    }
}

/// The announce request: connection id, action 1, transaction id,
/// info-hash, peer id, downloaded 0, left, uploaded 0, event 0, IP 0, key,
/// num_want -1, port.
pub open spec fn spec_udp_announce_request(
    conn: i64,
    trans_id: i32,
    ih_raw: Seq<u8>,
    peer_id_encoded: Seq<char>,
    left: u64,
    key: i32,
    port: u16,
) -> Seq<u8> {
    be_bytes(conn as u64 as nat, 8) + be_bytes(1, 4) + be_bytes(trans_id as u32 as nat, 4) + ih_raw
        + udp_peer_id(ih_raw, peer_id_encoded) + be_bytes(0, 8) + be_bytes(left as nat, 8)
        + be_bytes(0, 8) + be_bytes(0, 4) + be_bytes(0, 4) + be_bytes(key as u32 as nat, 4)
        + be_bytes(0xffff_ffff, 4) + be_bytes(port as nat, 2)
}

/// The UDP announce request is 98 bytes for a 20-byte info-hash: the action
/// 1 in bytes 8 to 11, the info-hash in bytes 16 to 35, num_want -1 in bytes
/// 92 to 95, and the client's port, big-endian, in its last two bytes.
pub proof fn lemma_udp_announce_layout(
    conn: i64,
    trans_id: i32,
    ih_raw: Seq<u8>,
    peer_id_encoded: Seq<char>,
    left: u64,
    key: i32,
    port: u16,
)
    requires
        ih_raw.len() == 20,
    ensures
        ({
            let r = spec_udp_announce_request(conn, trans_id, ih_raw, peer_id_encoded, left, key, port);
            &&& r.len() == 98
            &&& r.subrange(8, 12) == seq![0u8, 0u8, 0u8, 1u8]
            &&& r.subrange(16, 36) == ih_raw
            &&& r.subrange(92, 96) == seq![0xffu8, 0xffu8, 0xffu8, 0xffu8]
            &&& r.subrange(96, 98) == seq![(port / 256) as u8, (port % 256) as u8]
        }),
{
    let r = spec_udp_announce_request(conn, trans_id, ih_raw, peer_id_encoded, left, key, port);
    crate::upstream::lemma_be_bytes_len(conn as u64 as nat, 8);
    crate::upstream::lemma_be_bytes_len(1, 4);
    crate::upstream::lemma_be_bytes_len(trans_id as u32 as nat, 4);
    crate::upstream::lemma_be_bytes_len(0, 8);
    crate::upstream::lemma_be_bytes_len(left as nat, 8);
    crate::upstream::lemma_be_bytes_len(0, 4);
    crate::upstream::lemma_be_bytes_len(key as u32 as nat, 4);
    crate::upstream::lemma_be_bytes_len(0xffff_ffff, 4);
    crate::upstream::lemma_be_bytes_len(port as nat, 2);
    let pid = udp_peer_id(ih_raw, peer_id_encoded);
    assert(pid.len() == 20);
    reveal_with_fuel(be_bytes, 5);
    let one = be_bytes(1, 4);
    assert(one =~= seq![0u8, 0u8, 0u8, 1u8]);
    let ff = be_bytes(0xffff_ffff, 4);
    assert(ff =~= seq![0xffu8, 0xffu8, 0xffu8, 0xffu8]);
    let pb = be_bytes(port as nat, 2);
    assert((port as nat / 256) % 256 == port / 256);
    assert(pb =~= seq![(port / 256) as u8, (port % 256) as u8]);
    let a = be_bytes(conn as u64 as nat, 8);
    let t = be_bytes(trans_id as u32 as nat, 4);
    assert(r == a + one + t + ih_raw + pid + be_bytes(0, 8) + be_bytes(left as nat, 8) + be_bytes(0, 8)
        + be_bytes(0, 4) + be_bytes(0, 4) + be_bytes(key as u32 as nat, 4) + ff + pb);
    assert(r.subrange(8, 12) =~= one);
    assert(r.subrange(16, 36) =~= ih_raw);
    assert(r.subrange(92, 96) =~= ff);
    assert(r.subrange(96, 98) =~= pb);
}

/// The announce request sent after a connect reply.
pub fn udp_announce_request(
    conn: i64,
    trans_id: i32,
    ih_raw: &[u8],
    peer_id_encoded: &str,
    left: u64,
    key: i32,
    port: u16,
) -> (r: Vec<u8>)
    ensures
        r@ == spec_udp_announce_request(conn, trans_id, ih_raw@, peer_id_encoded@, left, key, port),
{
    let decoded = crate::encoding::percent_decode(peer_id_encoded.as_bytes());
    let mut a: Vec<u8> = Vec::new();
    push_be(&mut a, conn as u64, 8);
    push_be(&mut a, 1, 4);
    push_be(&mut a, trans_id as u32 as u64, 4);
    crate::text::push_bytes(&mut a, ih_raw);
    if decoded.len() == 20 {
        crate::text::push_bytes(&mut a, decoded.as_slice());
    } else {
        crate::text::push_bytes(&mut a, ih_raw);
    }
    push_be(&mut a, 0, 8);
    push_be(&mut a, left, 8);
    push_be(&mut a, 0, 8);
    push_be(&mut a, 0, 4);
    push_be(&mut a, 0, 4);
    push_be(&mut a, key as u32 as u64, 4);
    push_be(&mut a, 0xffff_ffffu64, 4);
    push_be(&mut a, port as u64, 2);
    assert(a@ =~= spec_udp_announce_request(
        conn,
        trans_id,
        ih_raw@,
        peer_id_encoded@,
        left,
        key,
        port,
    ));
    a
}

/// A new transaction id, drawn at random, with the connect request that
/// carries it.
pub fn udp_connect_start() -> (r: (i32, Vec<u8>))
    ensures
        r.1@ == be_bytes(udp_protocol_id(), 8) + be_bytes(0, 4) + be_bytes(r.0 as u32 as nat, 4),
{
    let mut rng = crate::upstream::thread_rng();
    let trans_id = crate::upstream::gen_i32(&mut rng);
    (trans_id, udp_connect_request(trans_id))
}

/// The announce request sent after a connect reply, with a request key
/// drawn at random.
pub fn udp_announce_start(
    conn: i64,
    trans_id: i32,
    ih_raw: &[u8],
    peer_id_encoded: &str,
    left: u64,
    port: u16,
) -> (r: Vec<u8>)
    ensures
        exists|key: i32|
            r@ == #[trigger] spec_udp_announce_request(
                conn,
                trans_id,
                ih_raw@,
                peer_id_encoded@,
                left,
                key,
                port,
            ),
{
    let mut rng = crate::upstream::thread_rng();
    let key = crate::upstream::gen_i32(&mut rng);
    udp_announce_request(conn, trans_id, ih_raw, peer_id_encoded, left, key, port)
}

/// The peers of an announce reply of `n` bytes: the compact peers after its
/// 20-byte header, without `127.0.0.1`; none when the reply is shorter.
pub fn udp_reply_peers(buf: &[u8], n: usize) -> (r: Vec<(String, u16)>)
    requires
        n <= buf@.len(),
    ensures
        addrs_view(r@) == if n < 20 {
            Seq::<(Seq<char>, u16)>::empty()
        } else {
            as_text(compact_addrs(buf@.subrange(20, n as int)))
        },
{
    if n < 20 {
        let r: Vec<(String, u16)> = Vec::new();
        assert(addrs_view(r@) =~= Seq::<(Seq<char>, u16)>::empty());
        return r;
    }
    compact_peer_list(buf, 20, n - 20)
}

} // verus!
