//! Reading the peers out of an upstream tracker's announce reply, and adding
//! them to the store.
use vstd::prelude::*;
use vstd::utf8::*;
use crate::ipv4::{format_ipv4, write_ipv4};
use crate::store::{now_ts, store_upsert, PeerStore, StoreView};
use crate::text::{ascii_string, bytes_equal, decimal_value, is_ascii_bytes, is_digit, lemma_ascii_utf8, utf8_string};

verus! {

/// The first position at or after `from` where `p` occurs in `b`, or -1.
pub open spec fn find_from(b: Seq<u8>, p: Seq<u8>, from: int) -> int
    decreases b.len() - from,
{
    if from < 0 || from >= b.len() || from + p.len() > b.len() {
        -1
    } else if b.subrange(from, from + p.len()) == p {
        from
    } else {
        find_from(b, p, from + 1)
    }
}

/// The end of the run of decimal digits that starts at `i`.
pub open spec fn digits_end(b: Seq<u8>, i: int) -> int
    decreases b.len() - i,
{
    if i < 0 || i >= b.len() || !is_digit(b[i]) {
        i
    } else {
        digits_end(b, i + 1)
    }
}

/// The value of the digits from `i` to `digits_end(b, i)`.
pub open spec fn number_at(b: Seq<u8>, i: int) -> nat {
    decimal_value(b.subrange(i, digits_end(b, i)))
}

/// A run of digits stays inside the bytes and holds only digits.
pub proof fn lemma_digits_end(b: Seq<u8>, i: int)
    requires
        0 <= i <= b.len(),
    ensures
        i <= digits_end(b, i) <= b.len(),
        forall|k: int| i <= k < digits_end(b, i) ==> is_digit(#[trigger] b[k]),
        digits_end(b, i) < b.len() ==> !is_digit(b[digits_end(b, i)]),
    decreases b.len() - i,
{
    if i < b.len() && is_digit(b[i]) {
        lemma_digits_end(b, i + 1);
    }
}

/// The bytes `5:peers`.
pub open spec fn peers_key() -> Seq<u8> {
    seq![53u8, 58u8, 112u8, 101u8, 101u8, 114u8, 115u8]
}

/// The bytes `5:peersl`, the `peers` key followed by the start of a list.
pub open spec fn peers_list_key() -> Seq<u8> {
    peers_key().push(108u8)
}

/// The bytes `127.0.0.1`.
pub open spec fn localhost_text() -> Seq<u8> {
    seq![49u8, 50u8, 55u8, 46u8, 48u8, 46u8, 48u8, 46u8, 49u8]
}

/// The compact peer string of a reply: after the first `5:peers`, a length
/// in decimal, `:`, and that many bytes, a positive multiple of six that fits
/// in the reply.
pub open spec fn compact_section(b: Seq<u8>) -> Option<Seq<u8>> {
    let idx = find_from(b, peers_key(), 0);
    if idx < 0 {
        None
    } else {
        let i = idx + 7;
        let j = digits_end(b, i);
        let len = number_at(b, i);
        if j < b.len() && b[j] == 58 && len > 0 && j + 1 + len <= b.len() && len % 6 == 0 {
            Some(b.subrange(j + 1, j + 1 + len))
        } else {
            None
        }
    }
}

/// The address and port that six compact bytes stand for.
pub open spec fn compact_address(c: Seq<u8>) -> (Seq<u8>, u16) {
    (format_ipv4(c.take(4)), (c[4] as int * 256 + c[5] as int) as u16)
}

/// The peers of a compact peer string, six bytes each, without those at
/// `127.0.0.1`.
pub open spec fn compact_addrs(s: Seq<u8>) -> Seq<(Seq<u8>, u16)>
    decreases s.len(),
{
    if s.len() < 6 {
        Seq::empty()
    } else {
        let a = compact_address(s.take(6));
        let rest = compact_addrs(s.skip(6));
        if a.0 == localhost_text() {
            rest
        } else {
            seq![a] + rest
        }
    }
}

/// The bytes `ip`.
pub open spec fn ip_key() -> Seq<u8> {
    seq![105u8, 112u8]
}

/// The bytes `port`.
pub open spec fn port_key() -> Seq<u8> {
    seq![112u8, 111u8, 114u8, 116u8]
}

/// Skipping a nested list (`open` is `l`) or dictionary (`open` is `d`) by
/// counting `open` and `e` bytes: the position after the `e` that closes
/// `depth` levels, or the end of the bytes.
pub open spec fn skip_nested(b: Seq<u8>, i: int, depth: nat, open: u8) -> int
    decreases b.len() - i,
{
    if i < 0 || i >= b.len() || depth == 0 {
        i
    } else if b[i] == open {
        skip_nested(b, i + 1, depth + 1, open)
    } else if b[i] == 101 {
        skip_nested(b, i + 1, (depth - 1) as nat, open)
    } else {
        skip_nested(b, i + 1, depth, open)
    }
}

/// Skipping nested values moves forward and stays inside the bytes.
pub proof fn lemma_skip_nested(b: Seq<u8>, i: int, depth: nat, open: u8)
    requires
        0 <= i <= b.len(),
    ensures
        i <= skip_nested(b, i, depth, open) <= b.len(),
    decreases b.len() - i,
{
    if i < b.len() && depth > 0 {
        if b[i] == open {
            lemma_skip_nested(b, i + 1, depth + 1, open);
        } else if b[i] == 101 {
            lemma_skip_nested(b, i + 1, (depth - 1) as nat, open);
        } else {
            lemma_skip_nested(b, i + 1, depth, open);
        }
    }
}

/// Reading the entries of one peer dictionary from `i`: the position where
/// reading stopped, and the last valid UTF-8 `ip` string and in-range `port`
/// integer seen (starting from `ip` and `port`). A key is a length, `:` and
/// that many bytes; an integer value is `i`, an optional `-`, digits and an
/// optional `e`; a list or dictionary value is skipped; a string value is a
/// length, an optional `:` and that many bytes. Reading stops at an `e`, at
/// the end, or at anything else.
pub open spec fn scan_entries(
    b: Seq<u8>,
    i: int,
    ip: Option<Seq<u8>>,
    port: Option<u16>,
) -> (int, Option<Seq<u8>>, Option<u16>)
    decreases b.len() - i,
{
    if i < 0 || i >= b.len() || b[i] == 101 {
        (i, ip, port)
    } else {
        proof {
            lemma_digits_end(b, i);
        }
        let ke = digits_end(b, i);
        let klen = number_at(b, i);
        if ke >= b.len() || b[ke] != 58 {
            (ke, ip, port)
        } else {
            let ks = ke + 1;
            if ks + klen > b.len() {
                (ks, ip, port)
            } else {
                let key = b.subrange(ks, ks + klen);
                let v = ks + klen;
                if v >= b.len() {
                    (v, ip, port)
                } else if b[v] == 105 {
                    let neg = v + 1 < b.len() && b[v + 1] == 45;
                    let ds = if neg {
                        v + 2
                    } else {
                        v + 1
                    };
                    proof {
                        lemma_digits_end(b, ds);
                    }
                    let de = digits_end(b, ds);
                    let mag = number_at(b, ds);
                    let next = if de < b.len() && b[de] == 101 {
                        de + 1
                    } else {
                        de
                    };
                    let in_range = if neg {
                        mag == 0
                    } else {
                        mag <= 65535
                    };
                    let port2 = if key == port_key() && in_range {
                        Some(mag as u16)
                    } else {
                        port
                    };
                    scan_entries(b, next, ip, port2)
                } else if b[v] == 108 || b[v] == 100 {
                    proof {
                        lemma_skip_nested(b, v + 1, 1, b[v]);
                    }
                    scan_entries(b, skip_nested(b, v + 1, 1, b[v]), ip, port)
                } else if is_digit(b[v]) {
                    proof {
                        lemma_digits_end(b, v);
                    }
                    let ve = digits_end(b, v);
                    let vlen = number_at(b, v);
                    let vs = if ve < b.len() && b[ve] == 58 {
                        ve + 1
                    } else {
                        ve
                    };
                    if vs + vlen > b.len() {
                        (vs, ip, port)
                    } else {
                        let val = b.subrange(vs, vs + vlen);
                        let ip2 = if key == ip_key() && valid_utf8(val) {
                            Some(val)
                        } else {
                            ip
                        };
                        scan_entries(b, vs + vlen, ip2, port)
                    }
                } else {
                    (v, ip, port)
                }
            }
        }
    }
}

/// Reading entries moves forward and stays inside the bytes, and an `ip`
/// read is valid UTF-8.
pub proof fn lemma_scan_entries(b: Seq<u8>, i: int, ip: Option<Seq<u8>>, port: Option<u16>)
    requires
        0 <= i <= b.len(),
        ip matches Some(x) ==> valid_utf8(x),
    ensures
        i <= scan_entries(b, i, ip, port).0 <= b.len(),
        scan_entries(b, i, ip, port).1 matches Some(x) ==> valid_utf8(x),
    decreases b.len() - i,
{
    if i < b.len() && b[i] != 101 {
        lemma_digits_end(b, i);
        let ke = digits_end(b, i);
        let klen = number_at(b, i);
        if ke < b.len() && b[ke] == 58 {
            let ks = ke + 1;
            if ks + klen <= b.len() {
                let key = b.subrange(ks, ks + klen);
                let v = ks + klen;
                if v < b.len() {
                    if b[v] == 105 {
                        let neg = v + 1 < b.len() && b[v + 1] == 45;
                        let ds = if neg {
                            v + 2
                        } else {
                            v + 1
                        };
                        lemma_digits_end(b, ds);
                        let de = digits_end(b, ds);
                        let mag = number_at(b, ds);
                        let next = if de < b.len() && b[de] == 101 {
                            de + 1
                        } else {
                            de
                        };
                        let in_range = if neg {
                            mag == 0
                        } else {
                            mag <= 65535
                        };
                        let port2 = if key == port_key() && in_range {
                            Some(mag as u16)
                        } else {
                            port
                        };
                        lemma_scan_entries(b, next, ip, port2);
                    } else if b[v] == 108 || b[v] == 100 {
                        lemma_skip_nested(b, v + 1, 1, b[v]);
                        lemma_scan_entries(b, skip_nested(b, v + 1, 1, b[v]), ip, port);
                    } else if is_digit(b[v]) {
                        lemma_digits_end(b, v);
                        let ve = digits_end(b, v);
                        let vlen = number_at(b, v);
                        let vs = if ve < b.len() && b[ve] == 58 {
                            ve + 1
                        } else {
                            ve
                        };
                        if vs + vlen <= b.len() {
                            let val = b.subrange(vs, vs + vlen);
                            let ip2 = if key == ip_key() && valid_utf8(val) {
                                Some(val)
                            } else {
                                ip
                            };
                            lemma_scan_entries(b, vs + vlen, ip2, port);
                        }
                    }
                }
            }
        }
    }
}

/// The peers of a list of dictionaries starting at `i`: each `d`-opened
/// dictionary read by [`scan_entries`] (and its closing `e` passed) gives a
/// peer when it had both an `ip` and a `port` and the ip is not
/// `127.0.0.1`; the list ends at an `e`, the end, or any other byte.
pub open spec fn list_peers_from(b: Seq<u8>, i: int) -> Seq<(Seq<u8>, u16)>
    decreases b.len() - i,
{
    if i < 0 || i >= b.len() || b[i] != 100 {
        Seq::empty()
    } else {
        proof {
            lemma_scan_entries(b, i + 1, None, None);
        }
        let r = scan_entries(b, i + 1, None, None);
        let j = if r.0 < b.len() && b[r.0] == 101 {
            r.0 + 1
        } else {
            r.0
        };
        let here = match (r.1, r.2) {
            (Some(ip), Some(port)) => if ip != localhost_text() {
                seq![(ip, port)]
            } else {
                Seq::empty()
            },
            _ => Seq::empty(),
        };
        here + list_peers_from(b, j)
    }
}

/// The peers of a reply whose `peers` is a list of dictionaries.
pub open spec fn dict_peers(b: Seq<u8>) -> Seq<(Seq<u8>, u16)> {
    let start = find_from(b, peers_list_key(), 0);
    if start < 0 {
        Seq::empty()
    } else {
        list_peers_from(b, start + 8)
    }
}

/// The peers an upstream reply lists (addresses as text), in order: those of
/// its compact peer string, or when that gives none, those of its list of
/// peer dictionaries. Peers at `127.0.0.1` are left out.
pub open spec fn reply_peers(b: Seq<u8>) -> Seq<(Seq<u8>, u16)> {
    let c = match compact_section(b) {
        Some(s) => compact_addrs(s),
        None => Seq::empty(),
    };
    if c.len() > 0 {
        c
    } else {
        dict_peers(b)
    }
}

/// Peers with their addresses decoded from UTF-8.
pub open spec fn as_text(ps: Seq<(Seq<u8>, u16)>) -> Seq<(Seq<char>, u16)> {
    ps.map_values(|e: (Seq<u8>, u16)| (decode_utf8(e.0), e.1))
}

/// The model of a list of peer addresses.
pub open spec fn addrs_view(v: Seq<(String, u16)>) -> Seq<(Seq<char>, u16)> {
    v.map_values(|e: (String, u16)| (e.0@, e.1))
}

/// The smaller of a number and a cap.
pub open spec fn capped(n: nat, cap: usize) -> usize {
    if n < cap {
        n as usize
    } else {
        cap
    }
}

/// The bytes `127.0.0.1`.
fn localhost_bytes() -> (r: Vec<u8>)
    ensures
        r@ == localhost_text(),
{
    let mut v: Vec<u8> = Vec::new();
    v.push(49u8);
    v.push(50u8);
    v.push(55u8);
    v.push(46u8);
    v.push(48u8);
    v.push(46u8);
    v.push(48u8);
    v.push(46u8);
    v.push(49u8);
    assert(v@ =~= localhost_text());
    v
}

/// `p` occurs in `b` at `k`.
fn occurs_at(b: &[u8], p: &[u8], k: usize) -> (r: bool)
    requires
        k + p@.len() <= b@.len(),
    ensures
        r == (b@.subrange(k as int, k + p@.len()) == p@),
{
    let mut j: usize = 0;
    let blen = b.len();
    while j < p.len()
        invariant
            blen == b@.len(),
            k + p@.len() <= b@.len(),
            j <= p@.len(),
            forall|x: int| 0 <= x < j ==> b@[k + x] == p@[x],
        decreases p@.len() - j,
    {
        if b[k + j] != p[j] {
            assert(b@.subrange(k as int, k + p@.len())[j as int] != p@[j as int]);
            return false;
        }
        j = j + 1;
    }
    assert(b@.subrange(k as int, k + p@.len()) =~= p@);
    true
}

/// The first occurrence of `p` in `b`.
fn find_pattern(b: &[u8], p: &[u8]) -> (r: Option<usize>)
    requires
        p@.len() > 0,
    ensures
        match r {
            Some(k) => find_from(b@, p@, 0) == k && k + p@.len() <= b@.len(),
            None => find_from(b@, p@, 0) < 0,
        },
{
    let mut k: usize = 0;
    while k < b.len()
        invariant
            p@.len() > 0,
            k <= b@.len(),
            find_from(b@, p@, 0) == find_from(b@, p@, k as int),
        decreases b@.len() - k,
    {
        if p.len() > b.len() - k {
            return None;
        }
        if occurs_at(b, p, k) {
            return Some(k);
        }
        k = k + 1;
    }
    None
}

/// The run of digits at `i`: its value capped at `cap`, and where it ends.
fn read_decimal(b: &[u8], i: usize, cap: usize) -> (r: (usize, usize))
    requires
        i <= b@.len(),
    ensures
        r.1 == digits_end(b@, i as int),
        r.0 == capped(number_at(b@, i as int), cap),
{
    let mut j: usize = i;
    let mut v: usize = 0;
    proof {
        lemma_digits_end(b@, i as int);
    }
    assert(b@.subrange(i as int, i as int) =~= Seq::<u8>::empty());
    while j < b.len() && 48 <= b[j] && b[j] <= 57
        invariant
            i <= j <= b@.len(),
            digits_end(b@, i as int) == digits_end(b@, j as int),
            v == capped(decimal_value(b@.subrange(i as int, j as int)), cap),
        decreases b@.len() - j,
    {
        let d = b[j] - 48;
        assert(b@.subrange(i as int, j + 1).drop_last() =~= b@.subrange(i as int, j as int));
        let nv: u128 = (v as u128) * 10 + (d as u128);
        v = if nv >= cap as u128 {
            cap
        } else {
            nv as usize
        };
        j = j + 1;
    }
    (v, j)
}

/// Where the compact peer string of a reply lies, if it has one.
fn find_compact_section(b: &[u8]) -> (r: Option<(usize, usize)>)
    ensures
        match r {
            Some((s, n)) => s + n <= b@.len() && n % 6 == 0 && compact_section(b@) == Some(
                b@.subrange(s as int, s + n),
            ),
            None => compact_section(b@) is None,
        },
{
    let mut key: Vec<u8> = Vec::new();
    key.push(53u8);
    key.push(58u8);
    key.push(112u8);
    key.push(101u8);
    key.push(101u8);
    key.push(114u8);
    key.push(115u8);
    assert(key@ =~= peers_key());
    match find_pattern(b, key.as_slice()) {
        None => None,
        Some(idx) => {
            let blen = b.len();
            assert(idx + key@.len() <= blen);
            let i = idx + 7;
            proof {
                lemma_digits_end(b@, i as int);
            }
            let (len, j) = read_decimal(b, i, b.len());
            if j < b.len() && b[j] == 58 {
                let s = j + 1;
                if len > 0 && len <= b.len() - s && len % 6 == 0 {
                    Some((s, len))
                } else {
                    None
                }
            } else {
                None
            }
        },
    }
}

/// The peers of the compact peer string `b[s..s + n]` (a final piece shorter
/// than six bytes is ignored).
pub fn compact_peer_list(b: &[u8], s: usize, n: usize) -> (r: Vec<(String, u16)>)
    requires
        s + n <= b@.len(),
    ensures
        addrs_view(r@) == as_text(compact_addrs(b@.subrange(s as int, s + n))),
{
    let ghost sec = b@.subrange(s as int, s + n);
    let lh = localhost_bytes();
    let mut out: Vec<(String, u16)> = Vec::new();
    let mut k: usize = 0;
    let blen = b.len();
    assert(sec.skip(0) =~= sec);
    while n - k >= 6
        invariant
            blen == b@.len(),
            s + n <= b@.len(),
            k <= n,
            k % 6 == 0,
            sec == b@.subrange(s as int, s + n),
            lh@ == localhost_text(),
            addrs_view(out@) + as_text(compact_addrs(sec.skip(k as int))) == as_text(
                compact_addrs(sec),
            ),
        decreases n - k,
    {
        let ghost rest = sec.skip(k as int);
        let mut octets: Vec<u8> = Vec::new();
        octets.push(b[s + k]);
        octets.push(b[s + k + 1]);
        octets.push(b[s + k + 2]);
        octets.push(b[s + k + 3]);
        assert(octets@ =~= rest.take(6).take(4));
        let ip = write_ipv4(octets.as_slice());
        let port: u16 = (b[s + k + 4] as u16) * 256 + (b[s + k + 5] as u16);
        let ghost a = compact_address(rest.take(6));
        assert(a.0 == ip@ && a.1 == port);
        assert(rest.skip(6) =~= sec.skip(k + 6));
        let ghost prev = addrs_view(out@);
        if !bytes_equal(ip.as_slice(), lh.as_slice()) {
            proof {
                assert(is_ascii_bytes(ip@));
                lemma_ascii_utf8(ip@);
            }
            let text = ascii_string(ip);
            out.push((text, port));
            assert(addrs_view(out@) =~= prev.push((decode_utf8(a.0), a.1)));
            assert(as_text(seq![a] + compact_addrs(sec.skip(k + 6))) =~= seq![(decode_utf8(a.0), a.1)]
                + as_text(compact_addrs(sec.skip(k + 6))));
            assert(addrs_view(out@) + as_text(compact_addrs(sec.skip(k + 6))) =~= prev + as_text(
                compact_addrs(rest),
            ));
        } else {
            assert(addrs_view(out@) + as_text(compact_addrs(sec.skip(k + 6))) =~= prev + as_text(
                compact_addrs(rest),
            ));
        }
        k = k + 6;
    }
    assert(compact_addrs(sec.skip(k as int)) =~= Seq::<(Seq<u8>, u16)>::empty());
    assert(addrs_view(out@) =~= as_text(compact_addrs(sec)));
    out
}

/// The model of an optional `ip` string, by its UTF-8 bytes.
pub open spec fn ip_bytes(ip: Option<String>) -> Option<Seq<u8>> {
    match ip {
        Some(s) => Some(encode_utf8(s@)),
        None => None,
    }
}

/// The bytes `b[k..k + n]` are `key`.
fn key_is(b: &[u8], k: usize, n: usize, key: &Vec<u8>) -> (r: bool)
    requires
        k + n <= b@.len(),
    ensures
        r == (b@.subrange(k as int, k + n) == key@),
{
    if n != key.len() {
        assert(b@.subrange(k as int, k + n).len() != key@.len());
        return false;
    }
    occurs_at(b, key.as_slice(), k)
}

/// Skips a nested list or dictionary whose opening byte was at `start - 1`.
fn skip_nested_exec(b: &[u8], start: usize, open: u8) -> (r: usize)
    requires
        1 <= start <= b@.len(),
    ensures
        r == skip_nested(b@, start as int, 1, open),
        start <= r <= b@.len(),
{
    let mut i: usize = start;
    let mut depth: usize = 1;
    let blen = b.len();
    proof {
        lemma_skip_nested(b@, start as int, 1, open);
    }
    while i < blen && depth > 0
        invariant
            blen == b@.len(),
            1 <= start <= i <= b@.len(),
            depth <= i - start + 1,
            skip_nested(b@, start as int, 1, open) == skip_nested(b@, i as int, depth as nat, open),
            start <= skip_nested(b@, start as int, 1, open) <= b@.len(),
        decreases b@.len() - i,
    {
        if b[i] == open {
            depth = depth + 1;
        } else if b[i] == 101 {
            depth = depth - 1;
        }
        i = i + 1;
    }
    i
}

/// Reads the entries of one peer dictionary from `i0`, as
/// [`scan_entries`] says.
fn scan_entries_exec(b: &[u8], i0: usize) -> (r: (usize, Option<String>, Option<u16>))
    requires
        i0 <= b@.len(),
    ensures
        (r.0 as int, ip_bytes(r.1), r.2) == scan_entries(b@, i0 as int, None, None),
        i0 <= r.0 <= b@.len(),
{
    let blen = b.len();
    let mut pk: Vec<u8> = Vec::new();
    pk.push(112u8);
    pk.push(111u8);
    pk.push(114u8);
    pk.push(116u8);
    assert(pk@ =~= port_key());
    let mut ik: Vec<u8> = Vec::new();
    ik.push(105u8);
    ik.push(112u8);
    assert(ik@ =~= ip_key());
    let mut i: usize = i0;
    let mut ip: Option<String> = None;
    let mut port: Option<u16> = None;
    proof {
        lemma_scan_entries(b@, i0 as int, None, None);
    }
    loop
        invariant
            blen == b@.len(),
            pk@ == port_key(),
            ik@ == ip_key(),
            i0 <= i <= b@.len(),
            ip_bytes(ip) matches Some(x) ==> valid_utf8(x),
            scan_entries(b@, i as int, ip_bytes(ip), port) == scan_entries(b@, i0 as int, None, None),
            i0 <= scan_entries(b@, i0 as int, None, None).0 <= b@.len(),
        decreases b@.len() - i,
    {
        proof {
            lemma_scan_entries(b@, i as int, ip_bytes(ip), port);
        }
        if i >= blen || b[i] == 101 {
            return (i, ip, port);
        }
        proof {
            lemma_digits_end(b@, i as int);
        }
        let (klen, ke) = read_decimal(b, i, blen);
        if ke >= blen || b[ke] != 58 {
            return (ke, ip, port);
        }
        let ks = ke + 1;
        if klen > blen - ks {
            return (ks, ip, port);
        }
        let v = ks + klen;
        if v >= blen {
            return (v, ip, port);
        }
        let tag = b[v];
        if tag == 105 {
            let neg = v + 1 < blen && b[v + 1] == 45;
            let ds = if neg {
                v + 2
            } else {
                v + 1
            };
            proof {
                lemma_digits_end(b@, ds as int);
            }
            let (mag, de) = read_decimal(b, ds, 65536);
            let next = if de < blen && b[de] == 101 {
                de + 1
            } else {
                de
            };
            let in_range = if neg {
                mag == 0
            } else {
                mag <= 65535
            };
            if in_range && key_is(b, ks, klen, &pk) {
                port = Some(mag as u16);
            }
            i = next;
        } else if tag == 108 || tag == 100 {
            i = skip_nested_exec(b, v + 1, tag);
        } else if 48 <= tag && tag <= 57 {
            proof {
                lemma_digits_end(b@, v as int);
            }
            let (vlen, ve) = read_decimal(b, v, blen);
            let vs = if ve < blen && b[ve] == 58 {
                ve + 1
            } else {
                ve
            };
            if vlen > blen - vs {
                return (vs, ip, port);
            }
            if key_is(b, ks, klen, &ik) {
                let mut val: Vec<u8> = Vec::new();
                let mut x: usize = vs;
                let end = vs + vlen;
                while x < end
                    invariant
                        end == vs + vlen,
                        vs <= x <= vs + vlen <= b@.len(),
                        val@ == b@.subrange(vs as int, x as int),
                    decreases vs + vlen - x,
                {
                    val.push(b[x]);
                    x = x + 1;
                    assert(val@ =~= b@.subrange(vs as int, x as int));
                }
                if let Some(text) = utf8_string(val) {
                    ip = Some(text);
                }
            }
            i = vs + vlen;
        } else {
            return (v, ip, port);
        }
    }
}

/// The peers of a reply whose `peers` is a list of dictionaries.
fn dict_peer_list(b: &[u8]) -> (r: Vec<(String, u16)>)
    ensures
        addrs_view(r@) == as_text(dict_peers(b@)),
{
    let mut key: Vec<u8> = Vec::new();
    key.push(53u8);
    key.push(58u8);
    key.push(112u8);
    key.push(101u8);
    key.push(101u8);
    key.push(114u8);
    key.push(115u8);
    key.push(108u8);
    assert(key@ =~= peers_list_key());
    let mut out: Vec<(String, u16)> = Vec::new();
    let start = match find_pattern(b, key.as_slice()) {
        None => {
            return out;
        },
        Some(k) => k,
    };
    let blen = b.len();
    let lh = localhost_bytes();
    let mut i: usize = start + 8;
    assert(addrs_view(out@) =~= Seq::<(Seq<char>, u16)>::empty());
    loop
        invariant
            blen == b@.len(),
            i <= b@.len(),
            lh@ == localhost_text(),
            addrs_view(out@) + as_text(list_peers_from(b@, i as int)) == as_text(
                dict_peers(b@),
            ),
        decreases b@.len() - i,
    {
        if i >= blen || b[i] != 100 {
            assert(list_peers_from(b@, i as int) =~= Seq::<(Seq<u8>, u16)>::empty());
            assert(as_text(Seq::<(Seq<u8>, u16)>::empty()) =~= Seq::<(Seq<char>, u16)>::empty());
            assert(addrs_view(out@) =~= as_text(dict_peers(b@)));
            return out;
        }
        proof {
            lemma_scan_entries(b@, i + 1, None, None);
        }
        let (r0, ip, port) = scan_entries_exec(b, i + 1);
        let j = if r0 < blen && b[r0] == 101 {
            r0 + 1
        } else {
            r0
        };
        let ghost prev = addrs_view(out@);
        let ghost here: Seq<(Seq<u8>, u16)> = match (ip_bytes(ip), port) {
            (Some(x), Some(p)) => if x != localhost_text() {
                seq![(x, p)]
            } else {
                Seq::empty()
            },
            _ => Seq::empty(),
        };
        assert(list_peers_from(b@, i as int) == here + list_peers_from(b@, j as int));
        assert(as_text(here + list_peers_from(b@, j as int)) =~= as_text(here) + as_text(
            list_peers_from(b@, j as int),
        ));
        match (ip, port) {
            (Some(text), Some(p)) => {
                if !bytes_equal(text.as_str().as_bytes(), lh.as_slice()) {
                    proof {
                        encode_utf8_decode_utf8(text@);
                    }
                    out.push((text, p));
                    assert(addrs_view(out@) =~= prev + as_text(here));
                } else {
                    assert(as_text(here) =~= Seq::<(Seq<char>, u16)>::empty());
                    assert(addrs_view(out@) =~= prev + as_text(here));
                }
            },
            _ => {
                assert(as_text(here) =~= Seq::<(Seq<char>, u16)>::empty());
                assert(addrs_view(out@) =~= prev + as_text(here));
            },
        }
        i = j;
    }
}

/// The peers an upstream tracker's reply lists, as [`reply_peers`] says:
/// those of the compact peer string, or when that gives none those of the
/// list of peer dictionaries, without `127.0.0.1`.
pub fn reply_peer_list(body: &[u8]) -> (r: Vec<(String, u16)>)
    ensures
        addrs_view(r@) == as_text(reply_peers(body@)),
{
    let compact = match find_compact_section(body) {
        Some((s, n)) => compact_peer_list(body, s, n),
        None => Vec::new(),
    };
    if compact.len() > 0 {
        compact
    } else {
        assert(as_text(Seq::<(Seq<u8>, u16)>::empty()) =~= Seq::<(Seq<char>, u16)>::empty());
        dict_peer_list(body)
    }
}

/// The peers a WebSocket tracker named, as `(ip, port)` pairs: `127.0.0.1`
/// left out, each port cut to its low 16 bits.
pub open spec fn ws_addrs(ps: Seq<(Seq<char>, u64)>) -> Seq<(Seq<char>, u16)>
    decreases ps.len(),
{
    if ps.len() == 0 {
        Seq::empty()
    } else {
        let r = ws_addrs(ps.drop_last());
        if ps.last().0 == localhost_chars() {
            r
        } else {
            r.push((ps.last().0, (ps.last().1 % 65536) as u16))
        }
    }
}

/// The text `127.0.0.1`.
pub open spec fn localhost_chars() -> Seq<char> {
    "127.0.0.1"@
}

/// The model of a list of `(ip, port)` pairs with wide ports.
pub open spec fn wide_addrs_view(v: Seq<(String, u64)>) -> Seq<(Seq<char>, u64)> {
    v.map_values(|e: (String, u64)| (e.0@, e.1))
}

proof fn lemma_digits_end_at(b: Seq<u8>, i: int, k: int)
    requires
        0 <= i,
        0 <= k,
        i + k < b.len(),
        forall|j: int| i <= j < i + k ==> is_digit(#[trigger] b[j]),
        !is_digit(b[i + k]),
    ensures
        digits_end(b, i) == i + k,
    decreases k,
{
    if k > 0 {
        lemma_digits_end_at(b, i + 1, k - 1);
    }
}

/// The peers of a compact peer string none of whose six-byte pieces is at
/// `127.0.0.1`: one per piece, in order.
pub proof fn lemma_compact_addrs_all(s: Seq<u8>)
    requires
        s.len() % 6 == 0,
        forall|k: int|
            0 <= k < s.len() / 6 ==> #[trigger] s.subrange(6 * k, 6 * k + 4) != seq![127u8, 0u8, 0u8, 1u8],
    ensures
        compact_addrs(s).len() == s.len() / 6,
        forall|k: int|
            0 <= k < s.len() / 6 ==> #[trigger] compact_addrs(s)[k] == compact_address(
                s.subrange(6 * k, 6 * k + 6),
            ),
    decreases s.len(),
{
    if s.len() >= 6 {
        let t = s.skip(6);
        assert forall|k: int| 0 <= k < t.len() / 6 implies #[trigger] t.subrange(6 * k, 6 * k + 4)
            != seq![127u8, 0u8, 0u8, 1u8] by {
            assert(t.subrange(6 * k, 6 * k + 4) =~= s.subrange(6 * (k + 1), 6 * (k + 1) + 4));
        }
        lemma_compact_addrs_all(t);
        let a = compact_address(s.take(6));
        assert(s.subrange(0, 4) =~= s.take(6).take(4));
        let z: int = 0;
        assert(s.subrange(6 * z, 6 * z + 4) =~= s.take(6).take(4));
        assert(a.0 != localhost_text()) by {
            if a.0 == localhost_text() {
                let o = s.take(6).take(4);
                let h = seq![127u8, 0u8, 0u8, 1u8];
                crate::ipv4::lemma_ipv4_round_trip(o);
                crate::ipv4::lemma_ipv4_round_trip(h);
                assert(localhost_text() == crate::ipv4::format_ipv4(h)) by {
                    reveal_with_fuel(crate::text::decimal, 3);
                    assert(crate::text::decimal(127) =~= seq![49u8, 50u8, 55u8]);
                    assert(crate::text::decimal(0) =~= seq![48u8]);
                    assert(crate::text::decimal(1) =~= seq![49u8]);
                    assert(localhost_text() =~= crate::ipv4::format_ipv4(h));
                }
                assert(o == h);
            }
        }
        assert(compact_addrs(s) == seq![a] + compact_addrs(t));
        assert forall|k: int| 0 <= k < s.len() / 6 implies #[trigger] compact_addrs(s)[k]
            == compact_address(s.subrange(6 * k, 6 * k + 6)) by {
            if k == 0 {
                assert(s.subrange(0, 6) =~= s.take(6));
            } else {
                assert(compact_addrs(s)[k] == compact_addrs(t)[k - 1]);
                assert(t.subrange(6 * (k - 1), 6 * (k - 1) + 6) =~= s.subrange(6 * k, 6 * k + 6));
            }
        }
    } else {
        assert(s.len() == 0);
    }
}

/// A reply whose `peers` value is a compact string of `n >= 1` six-byte
/// entries, none at `127.0.0.1`, gives exactly those `n` peers, in order,
/// whatever the number of digits of its length `6n`.
pub proof fn lemma_compact_reply(blob: Seq<u8>, rest: Seq<u8>)
    requires
        blob.len() > 0,
        blob.len() % 6 == 0,
        forall|k: int|
            0 <= k < blob.len() / 6 ==> #[trigger] blob.subrange(6 * k, 6 * k + 4) != seq![127u8, 0u8, 0u8, 1u8],
    ensures
        ({
            let b = peers_key() + crate::text::decimal(blob.len()) + seq![58u8] + blob + rest;
            &&& compact_section(b) == Some(blob)
            &&& reply_peers(b).len() == blob.len() / 6
            &&& forall|k: int|
                0 <= k < blob.len() / 6 ==> #[trigger] reply_peers(b)[k] == compact_address(
                    blob.subrange(6 * k, 6 * k + 6),
                )
        }),
{
    let d = crate::text::decimal(blob.len());
    let b = peers_key() + d + seq![58u8] + blob + rest;
    crate::text::lemma_decimal_digits(blob.len());
    crate::text::lemma_decimal_value_of_decimal(blob.len());
    assert(b.subrange(0, 7) =~= peers_key());
    assert(find_from(b, peers_key(), 0) == 0);
    let j: int = 7 + d.len() as int;
    assert forall|x: int| 7 <= x < j implies is_digit(#[trigger] b[x]) by {
        assert(b[x] == d[x - 7]);
    }
    assert(b[j] == 58u8);
    lemma_digits_end_at(b, 7, d.len() as int);
    assert(b.subrange(7, j) =~= d);
    assert(number_at(b, 7) == blob.len());
    assert(b.subrange(j + 1, j + 1 + blob.len() as int) =~= blob);
    assert(compact_section(b) == Some(blob));
    lemma_compact_addrs_all(blob);
}

proof fn lemma_compact_no_localhost(s: Seq<u8>)
    ensures
        forall|k: int|
            0 <= k < compact_addrs(s).len() ==> (#[trigger] compact_addrs(s)[k]).0 != localhost_text(),
    decreases s.len(),
{
    if s.len() >= 6 {
        lemma_compact_no_localhost(s.skip(6));
        let a = compact_address(s.take(6));
        let rest = compact_addrs(s.skip(6));
        if a.0 != localhost_text() {
            assert forall|k: int| 0 <= k < compact_addrs(s).len() implies (
            #[trigger] compact_addrs(s)[k]).0 != localhost_text() by {
                if k > 0 {
                    assert(compact_addrs(s)[k] == rest[k - 1]);
                }
            }
        }
    }
}

proof fn lemma_list_no_localhost(b: Seq<u8>, i: int)
    ensures
        forall|k: int|
            0 <= k < list_peers_from(b, i).len() ==> (#[trigger] list_peers_from(b, i)[k]).0
                != localhost_text(),
    decreases b.len() - i,
{
    if 0 <= i < b.len() && b[i] == 100 {
        lemma_scan_entries(b, i + 1, None, None);
        let r = scan_entries(b, i + 1, None, None);
        let j = if r.0 < b.len() && b[r.0] == 101 {
            r.0 + 1
        } else {
            r.0
        };
        lemma_list_no_localhost(b, j);
        let here = match (r.1, r.2) {
            (Some(ip), Some(port)) => if ip != localhost_text() {
                seq![(ip, port)]
            } else {
                Seq::empty()
            },
            _ => Seq::empty(),
        };
        let rest = list_peers_from(b, j);
        assert(list_peers_from(b, i) == here + rest);
        assert forall|k: int| 0 <= k < list_peers_from(b, i).len() implies (
        #[trigger] list_peers_from(b, i)[k]).0 != localhost_text() by {
            if k >= here.len() {
                assert(list_peers_from(b, i)[k] == rest[k - here.len()]);
            }
        }
    }
}

/// No peer read from an upstream reply is at `127.0.0.1`.
pub proof fn lemma_reply_skips_localhost(b: Seq<u8>)
    ensures
        forall|k: int|
            0 <= k < reply_peers(b).len() ==> (#[trigger] reply_peers(b)[k]).0 != localhost_text(),
{
    match compact_section(b) {
        Some(s) => lemma_compact_no_localhost(s),
        None => {},
    }
    let start = find_from(b, peers_list_key(), 0);
    if start >= 0 {
        lemma_list_no_localhost(b, start + 8);
    }
}

/// No peer taken from a WebSocket tracker's reply is at `127.0.0.1`, and
/// each of the others is taken, in order.
pub proof fn lemma_ws_skips_localhost(ps: Seq<(Seq<char>, u64)>)
    ensures
        forall|k: int|
            0 <= k < ws_addrs(ps).len() ==> (#[trigger] ws_addrs(ps)[k]).0 != localhost_chars(),
        ws_addrs(ps).len() <= ps.len(),
    decreases ps.len(),
{
    if ps.len() > 0 {
        lemma_ws_skips_localhost(ps.drop_last());
    }
}

/// The peers to record from a WebSocket tracker's reply, given the
/// `(ip, port)` pairs it listed.
pub fn ws_peer_list(peers: &Vec<(String, u64)>) -> (r: Vec<(String, u16)>)
    ensures
        addrs_view(r@) == ws_addrs(wide_addrs_view(peers@)),
{
    let ghost ps = wide_addrs_view(peers@);
    let mut out: Vec<(String, u16)> = Vec::new();
    let mut i: usize = 0;
    while i < peers.len()
        invariant
            i <= peers@.len(),
            ps == wide_addrs_view(peers@),
            addrs_view(out@) == ws_addrs(ps.take(i as int)),
        decreases peers@.len() - i,
    {
        assert(ps.take(i + 1).drop_last() =~= ps.take(i as int));
        let ip = &peers[i].0;
        let port = peers[i].1;
        if !crate::text::is_localhost(ip.as_str()) {
            let ghost prev = addrs_view(out@);
            let p16 = (port % 65536) as u16;
            out.push((ip.clone(), p16));
            assert(addrs_view(out@) =~= prev.push((ip@, p16)));
        }
        i = i + 1;
    }
    assert(ps.take(i as int) =~= ps);
    out
}

/// A JSON value, as far as the tracker reads one: numbers are kept only as
/// the `u64` they stand for, when they are non-negative integers that fit.
#[derive(Debug)]
pub enum JsonModel {
    Null,
    Bool(bool),
    Number(Option<u64>),
    Str(String),
    Array(Vec<JsonModel>),
    /// The members of an object, each key once.
    Object(Vec<(String, JsonModel)>),
}

#[verifier::external_type_specification]
#[verifier::external_body]
pub struct ExJsonValue(serde_json::Value);

/// Converts a `serde_json::Value` to a [`JsonModel`], variant by variant: a
/// number by `Number::as_u64`, an object member by member (its keys are
/// distinct, as `serde_json::Map` holds them). The value is opaque here, so
/// nothing is claimed of the result by itself; [`json_parse`] names it.
#[verifier::external_body]
fn json_model(v: &serde_json::Value) -> JsonModel {
    match v {
        serde_json::Value::Null => JsonModel::Null,
        serde_json::Value::Bool(b) => JsonModel::Bool(*b),
        serde_json::Value::Number(n) => JsonModel::Number(n.as_u64()),
        serde_json::Value::String(t) => JsonModel::Str(t.clone()),
        serde_json::Value::Array(a) => JsonModel::Array(a.iter().map(json_model).collect()),
        serde_json::Value::Object(m) => JsonModel::Object(
            m.iter().map(|(k, x)| (k.clone(), json_model(x))).collect(),
        ),
    }
}

/// What `serde_json::from_str::<serde_json::Value>` reads from a text,
/// converted to a [`JsonModel`]; `None` when the text is no JSON.
pub uninterp spec fn parsed_json(text: Seq<char>) -> Option<JsonModel>;

/// Calls `serde_json::from_str::<serde_json::Value>` and converts the value
/// read; the result depends on the text alone.
#[verifier::external_body]
fn json_parse(text: &str) -> (r: Option<JsonModel>)
    ensures
        r == parsed_json(text@),
{
    match serde_json::from_str::<serde_json::Value>(text) {
        Ok(v) => Some(json_model(&v)),
        Err(_) => None,
    }
}

/// The value of member `key` among `ms`, looked up from position `i`.
pub open spec fn member_from(ms: Seq<(String, JsonModel)>, key: Seq<char>, i: int) -> Option<
    JsonModel,
>
    decreases ms.len() - i,
{
    if i < 0 || i >= ms.len() {
        None
    } else if ms[i].0@ == key {
        Some(ms[i].1)
    } else {
        member_from(ms, key, i + 1)
    }
}

/// The member `key` of an object, as `Value::get` finds it; `None` for a
/// value that is not an object or has no such member.
pub open spec fn json_member(v: JsonModel, key: Seq<char>) -> Option<JsonModel> {
    match v {
        JsonModel::Object(ms) => member_from(ms@, key, 0),
        _ => None,
    }
}

/// The `(ip, port)` an element of a `peers` array gives: a string `ip` and
/// a number `port` that is a `u64`.
pub open spec fn json_peer_pair(p: JsonModel) -> Option<(Seq<char>, u64)> {
    match json_member(p, "ip"@) {
        Some(JsonModel::Str(ip)) => match json_member(p, "port"@) {
            Some(JsonModel::Number(Some(port))) => Some((ip@, port)),
            _ => None,
        },
        _ => None,
    }
}

/// The pairs the elements of a `peers` array give, in order.
pub open spec fn json_peer_pairs(items: Seq<JsonModel>) -> Seq<(Seq<char>, u64)>
    decreases items.len(),
{
    if items.len() == 0 {
        Seq::empty()
    } else {
        let r = json_peer_pairs(items.drop_last());
        match json_peer_pair(items.last()) {
            Some(pair) => r.push(pair),
            None => r,
        }
    }
}

/// The `(ip, port)` pairs a WebSocket tracker's reply lists: those of the
/// elements of its `peers` array; none when the reply is no JSON or has no
/// such array.
pub open spec fn ws_pairs_of(reply: Option<JsonModel>) -> Seq<(Seq<char>, u64)> {
    match reply {
        Some(v) => match json_member(v, "peers"@) {
            Some(JsonModel::Array(items)) => json_peer_pairs(items@),
            _ => Seq::empty(),
        },
        None => Seq::empty(),
    }
}

/// The member `key` of a JSON object.
pub fn json_get<'a>(v: &'a JsonModel, key: &str) -> (r: Option<&'a JsonModel>)
    ensures
        match r {
            Some(x) => json_member(*v, key@) == Some(*x),
            None => json_member(*v, key@) is None,
        },
{
    match v {
        JsonModel::Object(ms) => {
            let mut i: usize = 0;
            while i < ms.len()
                invariant
                    i <= ms@.len(),
                    json_member(*v, key@) == member_from(ms@, key@, 0),
                    member_from(ms@, key@, 0) == member_from(ms@, key@, i as int),
                decreases ms@.len() - i,
            {
                if crate::query::str_equal(ms[i].0.as_str(), key) {
                    assert(member_from(ms@, key@, i as int) == Some(ms@[i as int].1));
                    return Some(&ms[i].1);
                }
                i = i + 1;
            }
            None
        },
        _ => None,
    }
}

/// The `(ip, port)` pairs a WebSocket tracker's reply lists, in order.
pub fn ws_pairs(reply: &Option<JsonModel>) -> (r: Vec<(String, u64)>)
    ensures
        wide_addrs_view(r@) == ws_pairs_of(*reply),
{
    let mut out: Vec<(String, u64)> = Vec::new();
    let v = match reply {
        Some(v) => v,
        None => {
            assert(wide_addrs_view(out@) =~= Seq::<(Seq<char>, u64)>::empty());
            return out;
        },
    };
    let items = match json_get(v, "peers") {
        Some(JsonModel::Array(items)) => items,
        _ => {
            assert(wide_addrs_view(out@) =~= Seq::<(Seq<char>, u64)>::empty());
            return out;
        },
    };
    let mut i: usize = 0;
    while i < items.len()
        invariant
            i <= items@.len(),
            wide_addrs_view(out@) == json_peer_pairs(items@.take(i as int)),
        decreases items@.len() - i,
    {
        let p = &items[i];
        assert(items@.take(i + 1).drop_last() =~= items@.take(i as int));
        assert(items@.take(i + 1).last() == *p);
        let ghost prev = wide_addrs_view(out@);
        if let Some(JsonModel::Str(ip)) = json_get(p, "ip") {
            if let Some(JsonModel::Number(Some(port))) = json_get(p, "port") {
                out.push((ip.clone(), *port));
                assert(wide_addrs_view(out@) =~= prev.push((ip@, *port)));
            }
        }
        i = i + 1;
    }
    assert(items@.take(i as int) =~= items@);
    out
}

/// The peers to record from the text of a WebSocket tracker's reply: the
/// `(ip, port)` pairs of its `peers` array, `127.0.0.1` left out, each port
/// cut to its low 16 bits.
pub fn ws_reply_peers(text: &str) -> (r: Vec<(String, u16)>)
    ensures
        addrs_view(r@) == ws_addrs(ws_pairs_of(parsed_json(text@))),
{
    let reply = json_parse(text);
    let pairs = ws_pairs(&reply);
    ws_peer_list(&pairs)
}

/// The store after the peers `ps` announced torrent `ih` in turn at `now`,
/// with no `left`.
pub open spec fn upsert_all(
    s: StoreView,
    ih: Seq<char>,
    ps: Seq<(Seq<char>, u16)>,
    now: i64,
) -> StoreView
    decreases ps.len(),
{
    if ps.len() == 0 {
        s
    } else {
        store_upsert(upsert_all(s, ih, ps.drop_last(), now), ih, ps.last().0, ps.last().1, None, now)
    }
}

/// Records that each of `peers` announced torrent `ih_hex` at `now`, with no
/// `left`, in order.
pub fn upsert_peers_at(store: &mut PeerStore, ih_hex: &str, peers: &Vec<(String, u16)>, now: i64)
    requires
        old(store).wf(),
    ensures
        final(store).wf(),
        final(store)@ == upsert_all(old(store)@, ih_hex@, addrs_view(peers@), now),
{
    let ghost ps = addrs_view(peers@);
    let mut k: usize = 0;
    while k < peers.len()
        invariant
            k <= peers@.len(),
            ps == addrs_view(peers@),
            store.wf(),
            store@ == upsert_all(old(store)@, ih_hex@, ps.take(k as int), now),
        decreases peers@.len() - k,
    {
        assert(ps.take(k + 1).drop_last() =~= ps.take(k as int));
        store.upsert_peer_at(ih_hex, peers[k].0.as_str(), peers[k].1, None, now);
        k = k + 1;
    }
    assert(ps.take(k as int) =~= ps);
}

/// Records that each of `peers` announced torrent `ih_hex` now, with no
/// `left`, in order.
pub fn upsert_peers(store: &mut PeerStore, ih_hex: &str, peers: &Vec<(String, u16)>)
    requires
        old(store).wf(),
    ensures
        final(store).wf(),
        exists|now: i64|
            final(store)@ == #[trigger] upsert_all(old(store)@, ih_hex@, addrs_view(peers@), now),
{
    let now = now_ts();
    upsert_peers_at(store, ih_hex, peers, now);
}

/// Adds the peers of an upstream reply to torrent `ih_hex`, all seen at
/// `now`, and returns how many there were.
pub fn parse_and_upsert_at(store: &mut PeerStore, ih_hex: &str, body: &[u8], now: i64) -> (count:
    usize)
    requires
        old(store).wf(),
    ensures
        final(store).wf(),
        count == reply_peers(body@).len(),
        final(store)@ == upsert_all(old(store)@, ih_hex@, as_text(reply_peers(body@)), now),
{
    let list = reply_peer_list(body);
    upsert_peers_at(store, ih_hex, &list, now);
    list.len()
}

/// Adds the peers of an upstream reply to torrent `ih_hex`, seen now, and
/// returns how many there were.
pub fn parse_and_upsert(store: &mut PeerStore, ih_hex: &str, body: &[u8]) -> (count: usize)
    requires
        old(store).wf(),
    ensures
        final(store).wf(),
        count == reply_peers(body@).len(),
        exists|now: i64|
            final(store)@ == #[trigger] upsert_all(
                old(store)@,
                ih_hex@,
                as_text(reply_peers(body@)),
                now,
            ),
{
    let now = now_ts();
    parse_and_upsert_at(store, ih_hex, body, now)
}

} // verus!
