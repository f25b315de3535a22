//! Choosing upstream trackers and building what is sent to them.
use vstd::prelude::*;
use vstd::string::StringExecFns;
use vstd::std_specs::hash::DefaultHasherAdditionalSpecFns;
use std::collections::hash_map::DefaultHasher;
use std::hash::Hasher;
use rand::Rng;
use rand::seq::SliceRandom;
use crate::text::{
    ascii_chars, ascii_string, decimal, is_ascii_bytes, lemma_ascii_utf8, lemma_decimal_digits,
    push_decimal, text_opt,
};
use vstd::utf8::encode_utf8;

verus! {

/// How the HTTP upstream trackers of one fetch are chosen.
#[derive(Clone, Copy, Debug, PartialEq, Eq)]
pub enum UpstreamStrategy {
    /// Every tracker.
    All,
    /// A window of the list that moves on at every fetch.
    RoundRobin,
    /// A random choice.
    Random,
}

/// How an announce waits for the upstream fetch it starts.
#[derive(Clone, Copy, Debug, PartialEq, Eq)]
pub enum FastMode {
    /// Waits until the fetch ends.
    Wait,
    /// Waits for a bounded time.
    Timeout,
    /// Queues the fetch and answers at once.
    Async,
    /// Starts no fetch.
    Off,
}

#[verifier::external_type_specification]
#[verifier::external_body]
pub struct ExThreadRng(rand::rngs::ThreadRng);

/// Calls `rand::thread_rng`; the generator is random, nothing is claimed of it.
#[verifier::external_body]
pub(crate) fn thread_rng() -> rand::rngs::ThreadRng {
    rand::thread_rng()
}

/// Calls `Rng::gen_range(0..n)`: a random number below `n` (the call panics
/// on an empty range, so `n` is positive).
#[verifier::external_body]
fn gen_below(rng: &mut rand::rngs::ThreadRng, n: usize) -> (r: usize)
    requires
        n > 0,
    ensures
        r < n,
{
    rng.gen_range(0..n)
}

/// Calls `Rng::gen::<u64>()`: a random number; nothing more is claimed.
#[verifier::external_body]
fn gen_u64(rng: &mut rand::rngs::ThreadRng) -> u64 {
    rng.gen()
}

/// Calls `Rng::gen::<u32>()`: a random number; nothing more is claimed.
#[verifier::external_body]
pub(crate) fn gen_u32(rng: &mut rand::rngs::ThreadRng) -> u32 {
    rng.gen()
}

/// Calls `Rng::gen::<i32>()`: a random number; nothing more is claimed.
#[verifier::external_body]
pub(crate) fn gen_i32(rng: &mut rand::rngs::ThreadRng) -> i32 {
    rng.gen()
}

/// Calls `SliceRandom::shuffle`: the same strings in a random order.
#[verifier::external_body]
fn shuffle_strings(v: &mut Vec<String>, rng: &mut rand::rngs::ThreadRng)
    ensures
        final(v)@.to_multiset() == old(v)@.to_multiset(),
{
    v.as_mut_slice().shuffle(rng)
}

/// The smaller of two numbers.
pub open spec fn min_usize(a: usize, b: usize) -> usize {
    if a < b {
        a
    } else {
        b
    }
}

/// `n` trackers of `list` read round from position `start`.
pub open spec fn rotation(list: Seq<String>, start: int, n: int) -> Seq<String> {
    Seq::new(n as nat, |i: int| list[(start + i) % (list.len() as int)])
}

/// How far a fetch from a list of `list_len` trackers moves the shared
/// round-robin counter: not at all for an empty list; else by one when every
/// tracker is used in turn, by the batch for round robin, not at all
/// otherwise.
pub fn rr_step(list_len: usize, strat: UpstreamStrategy, batch: usize, load_balance_all: bool) -> (r:
    usize)
    ensures
        r == if list_len == 0 {
            0
        } else if load_balance_all {
            1
        } else if strat == UpstreamStrategy::RoundRobin {
            batch
        } else {
            0
        },
{
    if list_len == 0 {
        0
    } else if load_balance_all {
        1
    } else {
        match strat {
            UpstreamStrategy::RoundRobin => batch,
            _ => 0,
        }
    }
}

/// `n` trackers of `list` read round from `start`.
fn rotate(list: &[String], start: usize, n: usize) -> (r: Vec<String>)
    requires
        list@.len() > 0,
        start < list@.len(),
        n <= list@.len(),
    ensures
        r@ == rotation(list@, start as int, n as int),
{
    let mut out: Vec<String> = Vec::new();
    let mut i: usize = 0;
    while i < n
        invariant
            list@.len() > 0,
            start < list@.len(),
            n <= list@.len(),
            i <= n,
            out@ == rotation(list@, start as int, i as int),
        decreases n - i,
    {
        let len = list.len();
        let k = if i < len - start {
            start + i
        } else {
            i - (len - start)
        };
        assert(k as int == (start + i) % (len as int)) by (nonlinear_arith)
            requires
                start < len,
                i < len,
                k == if i < len - start {
                    start + i
                } else {
                    i - (len - start)
                },
        ;
        out.push(list[k].clone());
        i = i + 1;
        assert(out@ =~= rotation(list@, start as int, i as int));
    }
    out
}

/// Round robin hands the trackers out in turn: once the counter has moved
/// on by the batch, the next window starts where the previous one ended.
pub proof fn lemma_round_robin_continues(list: Seq<String>, counter: int, batch: int)
    requires
        list.len() > 0,
        0 <= counter,
        0 <= batch <= list.len(),
    ensures
        rotation(list, counter % (list.len() as int), batch) + rotation(
            list,
            (counter + batch) % (list.len() as int),
            batch,
        ) == rotation(list, counter % (list.len() as int), 2 * batch),
{
    let m = list.len() as int;
    let a = rotation(list, counter % m, batch);
    let b = rotation(list, (counter + batch) % m, batch);
    let c = rotation(list, counter % m, 2 * batch);
    assert forall|i: int| 0 <= i < 2 * batch implies #[trigger] (a + b)[i] == c[i] by {
        if i >= batch {
            vstd::arithmetic::div_mod::lemma_add_mod_noop_right(i - batch, counter + batch, m);
            vstd::arithmetic::div_mod::lemma_add_mod_noop_right(i, counter, m);
            assert((a + b)[i] == b[i - batch]);
            assert(((counter + batch) % m + (i - batch)) % m == (counter + i) % m);
            assert((counter % m + i) % m == (counter + i) % m);
        }
    }
    assert(a + b =~= c);
}

/// The upstream trackers one fetch uses. With `load_balance_all` every tracker,
/// read round from the counter; otherwise all of them, a round-robin window of
/// `batch` trackers from the counter, or `batch` trackers drawn at random.
/// `counter` is the round-robin counter's value before this fetch moved it.
pub fn select_trackers(
    list: &[String],
    strat: UpstreamStrategy,
    batch: usize,
    load_balance_all: bool,
    counter: usize,
) -> (r: Vec<String>)
    ensures
        list@.len() == 0 ==> r@.len() == 0,
        list@.len() > 0 && load_balance_all ==> r@ == rotation(
            list@,
            (counter as int) % (list@.len() as int),
            list@.len() as int,
        ),
        list@.len() > 0 && !load_balance_all && strat == UpstreamStrategy::All ==> r@ == list@,
        list@.len() > 0 && !load_balance_all && strat == UpstreamStrategy::RoundRobin ==> r@
            == rotation(list@, (counter as int) % (list@.len() as int), min_usize(batch, list@.len() as usize) as int),
        list@.len() > 0 && !load_balance_all && strat == UpstreamStrategy::Random ==> exists|
            perm: Seq<String>,
        |
            #![trigger perm.to_multiset()]
            perm.to_multiset() == list@.to_multiset() && r@ == perm.take(
                min_usize(batch, list@.len() as usize) as int,
            ),
{
    if list.len() == 0 {
        return Vec::new();
    }
    if load_balance_all {
        return rotate(list, counter % list.len(), list.len());
    }
    match strat {
        UpstreamStrategy::All => {
            let mut out: Vec<String> = Vec::new();
            let mut i: usize = 0;
            while i < list.len()
                invariant
                    i <= list@.len(),
                    out@ == list@.take(i as int),
                decreases list@.len() - i,
            {
                out.push(list[i].clone());
                i = i + 1;
                assert(out@ =~= list@.take(i as int));
            }
            assert(list@.take(i as int) =~= list@);
            out
        },
        UpstreamStrategy::RoundRobin => {
            let n = if batch < list.len() {
                batch
            } else {
                list.len()
            };
            rotate(list, counter % list.len(), n)
        },
        UpstreamStrategy::Random => {
            let mut v = rotate(list, 0, list.len());
            assert(v@ =~= list@) by {
                assert forall|i: int| 0 <= i < list@.len() implies v@[i] == list@[i] by {
                    assert((0 + i) % (list@.len() as int) == i) by (nonlinear_arith)
                        requires
                            0 <= i < list@.len(),
                    ;
                }
            }
            let mut rng = thread_rng();
            shuffle_strings(&mut v, &mut rng);
            let ghost perm = v@;
            let n = if batch < v.len() {
                batch
            } else {
                v.len()
            };
            v.truncate(n);
            proof {
                perm.to_multiset_ensures();
                list@.to_multiset_ensures();
                assert(perm.len() == list@.len());
            }
            v
        },
    }
}

/// The upstream shard that a torrent's fetches go through: the standard
/// hasher's digest of the raw info-hash, reduced modulo `shards`.
pub fn shard_for(data: &[u8], shards: usize) -> (r: usize)
    requires
        shards > 0,
    ensures
        r == (DefaultHasher::spec_finish(seq![data@]) as usize) % shards,
        r < shards,
{
    let mut hasher = DefaultHasher::new();
    hasher.write(data);
    let h = hasher.finish();
    (h as usize) % shards
}

/// The characters of the decimal numeral of `n`.
pub open spec fn dec_chars(n: nat) -> Seq<char> {
    ascii_chars(decimal(n))
}

/// The decimal numeral of `n` as text.
pub fn decimal_string(n: u64) -> (r: String)
    ensures
        r@ == dec_chars(n as nat),
{
    let mut v: Vec<u8> = Vec::new();
    push_decimal(&mut v, n);
    proof {
        lemma_decimal_digits(n as nat);
        assert(v@ =~= decimal(n as nat));
    }
    ascii_string(v)
}

/// The `n` low bytes of `v`, most significant first.
pub open spec fn be_bytes(v: nat, n: nat) -> Seq<u8>
    decreases n,
{
    if n == 0 {
        Seq::empty()
    } else {
        be_bytes(v / 256, (n - 1) as nat).push((v % 256) as u8)
    }
}

/// Big-endian bytes of a width have that many bytes.
pub proof fn lemma_be_bytes_len(v: nat, n: nat)
    ensures
        be_bytes(v, n).len() == n,
    decreases n,
{
    if n > 0 {
        lemma_be_bytes_len(v / 256, (n - 1) as nat);
    }
}

/// The number that big-endian bytes stand for.
pub open spec fn be_value(s: Seq<u8>) -> nat
    decreases s.len(),
{
    if s.len() == 0 {
        0
    } else {
        be_value(s.drop_last()) * 256 + s.last() as nat
    }
}

/// Appends the `n` low bytes of `v`, most significant first.
pub(crate) fn push_be(out: &mut Vec<u8>, v: u64, n: usize)
    ensures
        final(out)@ == old(out)@ + be_bytes(v as nat, n as nat),
    decreases n,
{
    if n > 0 {
        push_be(out, v / 256, n - 1);
        out.push((v % 256) as u8);
        assert(final(out)@ =~= old(out)@ + be_bytes(v as nat, n as nat));
    }
}

/// The eight uppercase hexadecimal digits of `k`, zero-padded.
pub open spec fn hex8_upper(k: u32) -> Seq<char> {
    Seq::new(8, |i: int| crate::encoding::upper_hex_digit(be_hex_nibble(k as nat, i)) as char)
}

/// The `i`-th hexadecimal digit (from the most significant) of a 32-bit number.
pub open spec fn be_hex_nibble(k: nat, i: int) -> nat
    decreases 7 - i,
{
    if i >= 7 {
        k % 16
    } else {
        be_hex_nibble(k / 16, i + 1)
    }
}

/// Eight uppercase hexadecimal digits of `k`, zero-padded, as `{:08X}` writes it.
pub fn hex8_upper_string(k: u32) -> (r: String)
    ensures
        r@ == hex8_upper(k),
{
    let mut digits: Vec<u8> = Vec::new();
    let mut i: usize = 0;
    while i < 8
        invariant
            i <= 8,
            digits@.len() == i,
            forall|j: int| 0 <= j < i ==> (#[trigger] digits@[j]) == crate::encoding::upper_hex_digit(
                be_hex_nibble(k as nat, j),
            ),
            forall|j: int| 0 <= j < i ==> (#[trigger] digits@[j]) < 128,
        decreases 8 - i,
    {
        let mut x: u32 = k;
        let mut j: usize = i;
        while j < 7
            invariant
                i <= j <= 7,
                be_hex_nibble(x as nat, j as int) == be_hex_nibble(k as nat, i as int),
            decreases 7 - j,
        {
            x = x / 16;
            j = j + 1;
        }
        let d = (x % 16) as u8;
        let c = if d < 10 {
            48 + d
        } else {
            55 + d
        };
        digits.push(c);
        i = i + 1;
    }
    let ghost dv = digits@;
    let r = ascii_string(digits);
    assert(r@ =~= hex8_upper(k));
    r
}

/// The 16 lowercase hexadecimal digits of `r`, zero-padded, as `{:016x}`
/// writes it.
pub open spec fn hex16_lower(r: u64) -> Seq<char> {
    ascii_chars(crate::encoding::hex_lower(be_bytes(r as nat, 8)))
}

/// The tracker id the tracker sends in announce replies, made from a number.
pub fn tracker_id_from(r: u64) -> (t: String)
    ensures
        t@ == hex16_lower(r),
{
    let mut bytes: Vec<u8> = Vec::new();
    push_be(&mut bytes, r, 8);
    assert(bytes@ =~= be_bytes(r as nat, 8));
    crate::encoding::hex_encode(bytes.as_slice())
}

/// A tracker id made from a random number.
pub fn make_tracker_id() -> (t: String)
    ensures
        exists|r: u64| t@ == #[trigger] hex16_lower(r),
{
    let mut rng = thread_rng();
    let r = gen_u64(&mut rng);
    tracker_id_from(r)
}

/// The `i`-th character of `0`–`9`, `A`–`Z`, `a`–`z`.
pub open spec fn alnum_at(i: nat) -> u8 {
    if i < 10 {
        (48 + i) as u8
    } else if i < 36 {
        (55 + i) as u8
    } else {
        (61 + i) as u8
    }
}

/// The bytes `-qB4630-` that the tracker's own peer ids start with.
pub open spec fn peer_id_prefix() -> Seq<u8> {
    seq![45u8, 113u8, 66u8, 52u8, 54u8, 51u8, 48u8, 45u8]
}

/// The percent-encoded peer id the tracker announces upstream with: the
/// prefix `-qB4630-` and 12 random letters and digits, every byte that is not
/// a letter or digit percent-encoded.
pub fn make_peer_id() -> (r: String)
    ensures
        exists|tail: Seq<u8>|
            tail.len() == 12 && (forall|i: int| 0 <= i < 12 ==> crate::text::is_alnum(#[trigger] tail[i]))
                && r@ == ascii_chars(
                #[trigger] crate::encoding::percent_upper_non_alnum(peer_id_prefix() + tail),
            ),
{
    let mut id: Vec<u8> = Vec::new();
    id.push(45u8);
    id.push(113u8);
    id.push(66u8);
    id.push(52u8);
    id.push(54u8);
    id.push(51u8);
    id.push(48u8);
    id.push(45u8);
    let mut rng = thread_rng();
    let mut i: usize = 8;
    while i < 20
        invariant
            8 <= i <= 20,
            id@.len() == i,
            id@.take(8) == peer_id_prefix(),
            forall|k: int| 8 <= k < i ==> crate::text::is_alnum(#[trigger] id@[k]),
        decreases 20 - i,
    {
        let x = gen_below(&mut rng, 62);
        let c: u8 = if x < 10 {
            48 + x as u8
        } else if x < 36 {
            55 + x as u8
        } else {
            61 + x as u8
        };
        id.push(c);
        assert(id@.take(8) =~= id@.take(i as int).take(8));
        i = i + 1;
    }
    let ghost tail = id@.skip(8);
    assert(id@ =~= peer_id_prefix() + tail);
    crate::encoding::percent_encode_non_alnum(id.as_slice())
}

/// What the tracker announces to an upstream tracker on a client's behalf.
#[derive(Clone, Debug)]
pub struct UpstreamAnnounceParams {
    /// The peer id, already percent-encoded.
    pub peer_id_encoded: String,
    pub port: u16,
    pub left: u64,
    pub event: String,
    pub numwant: u32,
}

/// The query string of an HTTP announce to an upstream tracker.
pub open spec fn spec_upstream_query(
    ih_encoded: Seq<char>,
    peer_id_encoded: Seq<char>,
    port: u16,
    left: u64,
    event: Seq<char>,
    numwant: u32,
    key: u32,
) -> Seq<char> {
    "info_hash="@ + ih_encoded + "&peer_id="@ + peer_id_encoded + "&port="@ + dec_chars(
        port as nat,
    ) + "&uploaded=0&downloaded=0&left="@ + dec_chars(left as nat) + "&event="@ + event
        + "&numwant="@ + dec_chars(numwant as nat)
        + "&compact=1&no_peer_id=1&supportcrypto=1&redundant=0&key="@ + hex8_upper(key)
}

/// The query sent upstream carries the client's port: right after
/// `info_hash=`, the encoded info-hash, `&peer_id=`, the encoded peer id and
/// `&port=` come decimal digits that read as `port`, ended by `&`.
pub proof fn lemma_upstream_query_port(
    ih_encoded: Seq<char>,
    peer_id_encoded: Seq<char>,
    port: u16,
    left: u64,
    event: Seq<char>,
    numwant: u32,
    key: u32,
)
    ensures
        ({
            let q = spec_upstream_query(ih_encoded, peer_id_encoded, port, left, event, numwant, key);
            let a: int = 25 + ih_encoded.len() as int + peer_id_encoded.len() as int;
            exists|n: int|
                1 <= n && a + n < q.len() && q[a + n] == '&' && crate::text::all_digits(
                    #[trigger] encode_utf8(q.subrange(a, a + n)),
                ) && crate::text::decimal_value(encode_utf8(q.subrange(a, a + n))) == port
        }),
{
    let q = spec_upstream_query(ih_encoded, peer_id_encoded, port, left, event, numwant, key);
    let a: int = 25 + ih_encoded.len() as int + peer_id_encoded.len() as int;
    let d = decimal(port as nat);
    lemma_decimal_digits(port as nat);
    crate::text::lemma_decimal_value_of_decimal(port as nat);
    assert(is_ascii_bytes(d)) by {
        assert forall|i: int| 0 <= i < d.len() implies #[trigger] d[i] < 128 by {
            assert(crate::text::is_digit(d[i]));
        }
    }
    lemma_ascii_utf8(d);
    let n = d.len() as int;
    reveal_strlit("info_hash=");
    reveal_strlit("&peer_id=");
    reveal_strlit("&port=");
    reveal_strlit("&uploaded=0&downloaded=0&left=");
    let head = "info_hash="@ + ih_encoded + "&peer_id="@ + peer_id_encoded + "&port="@;
    assert(head.len() == a);
    let tail = "&uploaded=0&downloaded=0&left="@ + dec_chars(left as nat) + "&event="@ + event
        + "&numwant="@ + dec_chars(numwant as nat)
        + "&compact=1&no_peer_id=1&supportcrypto=1&redundant=0&key="@ + hex8_upper(key);
    assert(q =~= head + ascii_chars(d) + tail);
    assert(q.subrange(a, a + n) =~= ascii_chars(d));
    assert(q[a + n] == tail[0]);
    assert(tail[0] == '&');
    assert(crate::text::all_digits(encode_utf8(q.subrange(a, a + n))));
}

/// The query string of an HTTP announce to an upstream tracker, for the
/// percent-encoded info-hash `ih_encoded` and the random request key `key`.
pub fn upstream_query(ih_encoded: &str, params: &UpstreamAnnounceParams, key: u32) -> (r: String)
    ensures
        r@ == spec_upstream_query(
            ih_encoded@,
            params.peer_id_encoded@,
            params.port,
            params.left,
            params.event@,
            params.numwant,
            key,
        ),
{
    let mut q = String::new();
    q.append("info_hash=");
    q.append(ih_encoded);
    q.append("&peer_id=");
    q.append(params.peer_id_encoded.as_str());
    q.append("&port=");
    q.append(decimal_string(params.port as u64).as_str());
    q.append("&uploaded=0&downloaded=0&left=");
    q.append(decimal_string(params.left).as_str());
    q.append("&event=");
    q.append(params.event.as_str());
    q.append("&numwant=");
    q.append(decimal_string(params.numwant as u64).as_str());
    q.append("&compact=1&no_peer_id=1&supportcrypto=1&redundant=0&key=");
    q.append(hex8_upper_string(key).as_str());
    q
}

/// `s` ends with `p`.
pub open spec fn ends_with(s: Seq<char>, p: Seq<char>) -> bool {
    s.len() >= p.len() && s.skip(s.len() - p.len()) == p
}

/// `s` starts with `p`.
pub open spec fn starts_with(s: Seq<char>, p: Seq<char>) -> bool {
    s.len() >= p.len() && s.take(p.len() as int) == p
}

/// `p` occurs somewhere in `s`.
pub open spec fn contains_text(s: Seq<char>, p: Seq<char>) -> bool {
    exists|i: int| 0 <= i && i + p.len() <= s.len() && #[trigger] s.subrange(i, i + p.len()) == p
}

/// Calls `str::ends_with` with a text pattern.
#[verifier::external_body]
fn str_ends_with(s: &str, p: &str) -> (r: bool)
    ensures
        r == ends_with(s@, p@),
{
    s.ends_with(p)
}

/// Calls `str::contains` with a text pattern.
#[verifier::external_body]
fn str_contains(s: &str, p: &str) -> (r: bool)
    ensures
        r == contains_text(s@, p@),
{
    s.contains(p)
}

/// The path of an upstream tracker's announce URL: the path itself when it
/// ends with `announce`, else the path with `/announce` (or `announce` after
/// a final `/`) added.
pub fn announce_path(path: &str) -> (r: String)
    ensures
        r@ == if ends_with(path@, "announce"@) {
            path@
        } else if ends_with(path@, "/"@) {
            path@ + "announce"@
        } else {
            path@ + "/"@ + "announce"@
        },
{
    let mut p = path.to_owned();
    if str_ends_with(path, "announce") {
        return p;
    }
    if !str_ends_with(path, "/") {
        p.append("/");
    }
    p.append("announce");
    p
}

/// The path of the URL that `url::Url::parse` reads from `t`, `None` when it
/// reads none.
pub uninterp spec fn parsed_url_path(t: Seq<char>) -> Option<Seq<char>>;

/// The text of the URL that `url::Url::parse` reads from `t`, once its query
/// is set to `query` with `Url::set_query`.
pub uninterp spec fn url_with_query(t: Seq<char>, query: Seq<char>) -> Option<Seq<char>>;

/// The text of the URL that `url::Url::parse` reads from `t`, once its path
/// is set to `path` with `Url::set_path` and its query to `query`.
pub uninterp spec fn url_with_path_query(t: Seq<char>, path: Seq<char>, query: Seq<char>) -> Option<
    Seq<char>,
>;

/// Calls `Url::parse` (as `reqwest::Url`) and takes the path of the URL read.
#[verifier::external_body]
fn url_path(t: &str) -> (r: Option<String>)
    ensures
        text_opt(r) == parsed_url_path(t@),
{
    reqwest::Url::parse(t).ok().map(|u| u.path().to_owned())
}

/// Calls `Url::parse`, then `Url::set_query`, and takes the URL's text; it
/// reads a URL exactly when `url_path` does, the same parse running on the
/// same text.
#[verifier::external_body]
fn url_set_query(t: &str, query: &str) -> (r: Option<String>)
    ensures
        text_opt(r) == url_with_query(t@, query@),
        r is Some <==> parsed_url_path(t@) is Some,
{
    let mut u = reqwest::Url::parse(t).ok()?;
    u.set_query(Some(query));
    Some(u.to_string())
}

/// Calls `Url::parse`, then `Url::set_path` and `Url::set_query`, and takes
/// the URL's text; it reads a URL exactly when `url_path` does.
#[verifier::external_body]
fn url_set_path_query(t: &str, path: &str, query: &str) -> (r: Option<String>)
    ensures
        text_opt(r) == url_with_path_query(t@, path@, query@),
        r is Some <==> parsed_url_path(t@) is Some,
{
    let mut u = reqwest::Url::parse(t).ok()?;
    u.set_path(path);
    u.set_query(Some(query));
    Some(u.to_string())
}

/// The announce URL of an upstream tracker with the query `query`: the
/// tracker's URL with `/announce` added to its path unless the path already
/// ends with `announce`; `None` when the tracker's text is no URL.
pub open spec fn spec_announce_url(tracker: Seq<char>, query: Seq<char>) -> Option<Seq<char>> {
    match parsed_url_path(tracker) {
        None => None,
        Some(p) => if ends_with(p, "announce"@) {
            url_with_query(tracker, query)
        } else {
            url_with_path_query(
                tracker,
                if ends_with(p, "/"@) {
                    p + "announce"@
                } else {
                    p + "/"@ + "announce"@
                },
                query,
            )
        },
    }
}

/// The announce URL of an upstream tracker with the query `query`.
pub fn announce_url(tracker: &str, query: &str) -> (r: Option<String>)
    ensures
        text_opt(r) == spec_announce_url(tracker@, query@),
{
    match url_path(tracker) {
        None => None,
        Some(p) => {
            if str_ends_with(p.as_str(), "announce") {
                url_set_query(tracker, query)
            } else {
                let path = announce_path(p.as_str());
                url_set_path_query(tracker, path.as_str(), query)
            }
        },
    }
}

/// The URL of one HTTP announce to an upstream tracker for the raw
/// info-hash `ih_raw`, with a random request key.
pub fn upstream_request_url(tracker: &str, ih_raw: &[u8], params: &UpstreamAnnounceParams) -> (r:
    Option<String>)
    ensures
        exists|key: u32|
            text_opt(r) == #[trigger] spec_announce_url(
                tracker@,
                spec_upstream_query(
                    crate::text::ascii_chars(crate::encoding::percent_lower(ih_raw@)),
                    params.peer_id_encoded@,
                    params.port,
                    params.left,
                    params.event@,
                    params.numwant,
                    key,
                ),
            ),
{
    let ih_encoded = crate::encoding::encode_lowercase(ih_raw);
    let mut rng = thread_rng();
    let key = gen_u32(&mut rng);
    let q = upstream_query(ih_encoded.as_str(), params, key);
    announce_url(tracker, q.as_str())
}

/// The first `n` trackers of a list (all of them when there are fewer).
pub fn first_trackers(list: &[String], n: usize) -> (r: Vec<String>)
    ensures
        r@ == list@.take(min_usize(n, list@.len() as usize) as int),
{
    let m = if n < list.len() {
        n
    } else {
        list.len()
    };
    let mut out: Vec<String> = Vec::new();
    let mut i: usize = 0;
    while i < m
        invariant
            m <= list@.len(),
            i <= m,
            out@ == list@.take(i as int),
        decreases m - i,
    {
        out.push(list[i].clone());
        i = i + 1;
        assert(out@ =~= list@.take(i as int));
    }
    out
}

/// A failed request's message tells of TLS trouble: it mentions `tls`,
/// `handshake` or `certificate`.
pub fn is_tls_error(message: &str) -> (r: bool)
    ensures
        r == (contains_text(message@, "tls"@) || contains_text(message@, "handshake"@)
            || contains_text(message@, "certificate"@)),
{
    str_contains(message, "tls") || str_contains(message, "handshake") || str_contains(
        message,
        "certificate",
    )
}

/// Two to the power `e`.
pub open spec fn pow2(e: nat) -> nat
    decreases e,
{
    if e == 0 {
        1
    } else {
        2 * pow2((e - 1) as nat)
    }
}

/// The pause before retrying a download after failed attempt number
/// `attempt` (from 0): 500 ms doubled per attempt, at most 256 times.
pub fn retry_backoff_ms(attempt: usize) -> (ms: u64)
    ensures
        ms == 500 * pow2(if attempt < 8 {
            attempt as nat
        } else {
            8
        }),
{
    let m: usize = if attempt < 8 {
        attempt
    } else {
        8
    };
    let mut f: u64 = 1;
    let mut i: usize = 0;
    while i < m
        invariant
            m <= 8,
            i <= m,
            f == pow2(i as nat),
            f <= 256,
        decreases m - i,
    {
        proof {
            assert(pow2((i + 1) as nat) == 2 * pow2(i as nat));
            if i < 8 {
                lemma_pow2_bound(i as nat);
            }
        }
        f = f * 2;
        i = i + 1;
    }
    500 * f
}

proof fn lemma_pow2_bound(e: nat)
    requires
        e < 8,
    ensures
        pow2(e) <= 128,
    decreases 7 - e,
{
    if e < 7 {
        lemma_pow2_bound(e + 1);
        assert(pow2(e + 1) == 2 * pow2(e));
    } else {
        reveal_with_fuel(pow2, 8);
    }
}

/// `s` cut at every `c`.
pub open spec fn pieces(s: Seq<char>, c: char) -> Seq<Seq<char>>
    decreases s.len(),
{
    match crate::query::split_once_spec(s, c) {
        Some((a, b)) => {
            proof {
                crate::query::lemma_first_index_of(s, c);
            }
            seq![a] + pieces(b, c)
        },
        None => seq![s],
    }
}

/// The lines of `s`, cut at every `\n`.
pub open spec fn lines_of(s: Seq<char>) -> Seq<Seq<char>> {
    pieces(s, '\n')
}

/// The upstream trackers of a tracker list, by protocol (HTTP(S), UDP,
/// WebSocket): each line trimmed; empty lines, `#` comments and other
/// schemes skipped.
pub open spec fn classify_lines(lines: Seq<Seq<char>>) -> (
    Seq<Seq<char>>,
    Seq<Seq<char>>,
    Seq<Seq<char>>,
)
    decreases lines.len(),
{
    if lines.len() == 0 {
        (Seq::empty(), Seq::empty(), Seq::empty())
    } else {
        let r = classify_lines(lines.drop_last());
        let t = crate::text::trim_chars(lines.last());
        if t.len() == 0 || starts_with(t, "#"@) {
            r
        } else if starts_with(t, "http://"@) || starts_with(t, "https://"@) {
            (r.0.push(t), r.1, r.2)
        } else if starts_with(t, "udp://"@) {
            (r.0, r.1.push(t), r.2)
        } else if starts_with(t, "ws://"@) || starts_with(t, "wss://"@) {
            (r.0, r.1, r.2.push(t))
        } else {
            r
        }
    }
}

fn has_prefix(s: &str, p: &str) -> (r: bool)
    ensures
        r == starts_with(s@, p@),
{
    crate::query::strip_prefix(s, p).is_some()
}

/// The models of a list of texts.
pub open spec fn texts(v: Seq<String>) -> Seq<Seq<char>> {
    v.map_values(|s: String| s@)
}

/// Sorts the trackers of a tracker list by protocol: HTTP(S), UDP, WebSocket.
pub fn classify_trackers(content: &str) -> (r: (Vec<String>, Vec<String>, Vec<String>))
    ensures
        (texts(r.0@), texts(r.1@), texts(r.2@)) == classify_lines(lines_of(content@)),
{
    let mut http: Vec<String> = Vec::new();
    let mut udp: Vec<String> = Vec::new();
    let mut ws: Vec<String> = Vec::new();
    let mut rest: &str = content;
    let ghost mut done: Seq<Seq<char>> = Seq::empty();
    assert(done + lines_of(rest@) =~= lines_of(content@));
    loop
        invariant
            done + lines_of(rest@) == lines_of(content@),
            (texts(http@), texts(udp@), texts(ws@)) == classify_lines(done),
        decreases rest@.len(),
    {
        proof {
            crate::query::lemma_first_index_of(rest@, '\n');
        }
        let (line, next) = match crate::query::split_once_char(rest, '\n') {
            Some((a, b)) => (a, Some(b)),
            None => (rest, None),
        };
        let t = crate::text::trim(line);
        let ghost prev = (texts(http@), texts(udp@), texts(ws@));
        if t.is_empty() || has_prefix(t, "#") {
        } else if has_prefix(t, "http://") || has_prefix(t, "https://") {
            http.push(t.to_owned());
            assert(texts(http@) =~= prev.0.push(t@));
        } else if has_prefix(t, "udp://") {
            udp.push(t.to_owned());
            assert(texts(udp@) =~= prev.1.push(t@));
        } else if has_prefix(t, "ws://") || has_prefix(t, "wss://") {
            ws.push(t.to_owned());
            assert(texts(ws@) =~= prev.2.push(t@));
        }
        proof {
            let nd = done.push(line@);
            assert(nd.drop_last() =~= done);
            done = nd;
        }
        match next {
            Some(n) => {
                assert(lines_of(rest@) =~= seq![line@] + lines_of(n@));
                assert(done + lines_of(n@) =~= lines_of(content@));
                rest = n;
            },
            None => {
                assert(lines_of(rest@) =~= seq![line@]);
                assert(done =~= lines_of(content@));
                return (http, udp, ws);
            },
        }
    }
}

/// The pieces, trimmed, without the empty ones.
pub open spec fn nonempty_trimmed(ps: Seq<Seq<char>>) -> Seq<Seq<char>>
    decreases ps.len(),
{
    if ps.len() == 0 {
        Seq::empty()
    } else {
        let r = nonempty_trimmed(ps.drop_last());
        let t = crate::text::trim_chars(ps.last());
        if t.len() == 0 {
            r
        } else {
            r.push(t)
        }
    }
}

/// The URLs of a `;`-separated list, trimmed, empty entries dropped.
pub fn split_url_list(s: &str) -> (r: Vec<String>)
    ensures
        texts(r@) == nonempty_trimmed(pieces(s@, ';')),
{
    let mut out: Vec<String> = Vec::new();
    let mut rest: &str = s;
    let ghost mut done: Seq<Seq<char>> = Seq::empty();
    assert(done + pieces(rest@, ';') =~= pieces(s@, ';'));
    loop
        invariant
            done + pieces(rest@, ';') == pieces(s@, ';'),
            texts(out@) == nonempty_trimmed(done),
        decreases rest@.len(),
    {
        proof {
            crate::query::lemma_first_index_of(rest@, ';');
        }
        let (piece, next) = match crate::query::split_once_char(rest, ';') {
            Some((a, b)) => (a, Some(b)),
            None => (rest, None),
        };
        let t = crate::text::trim(piece);
        let ghost prev = texts(out@);
        if !t.is_empty() {
            out.push(t.to_owned());
            assert(texts(out@) =~= prev.push(t@));
        }
        proof {
            let nd = done.push(piece@);
            assert(nd.drop_last() =~= done);
            done = nd;
        }
        match next {
            Some(n) => {
                assert(pieces(rest@, ';') =~= seq![piece@] + pieces(n@, ';'));
                assert(done + pieces(n@, ';') =~= pieces(s@, ';'));
                rest = n;
            },
            None => {
                assert(pieces(rest@, ';') =~= seq![piece@]);
                assert(done =~= pieces(s@, ';'));
                return out;
            },
        }
    }
}

/// ASCII letters made lowercase.
pub open spec fn lower_bytes(b: Seq<u8>) -> Seq<u8> {
    b.map_values(|c: u8| if 65 <= c <= 90 {
        (c + 32) as u8
    } else {
        c
    })
}

fn lowercase_bytes(b: &[u8]) -> (r: Vec<u8>)
    ensures
        r@ == lower_bytes(b@),
{
    let mut out: Vec<u8> = Vec::new();
    let mut i: usize = 0;
    while i < b.len()
        invariant
            i <= b@.len(),
            out@ == lower_bytes(b@.take(i as int)),
        decreases b@.len() - i,
    {
        let c = b[i];
        out.push(
            if 65 <= c && c <= 90 {
                c + 32
            } else {
                c
            },
        );
        i = i + 1;
        assert(out@ =~= lower_bytes(b@.take(i as int)));
    }
    assert(b@.take(i as int) =~= b@);
    out
}

/// The strategy a configured name selects (`all`, `random`, anything else
/// round robin), letters compared without case.
pub fn strategy_from_name(name: &str) -> (r: UpstreamStrategy)
    ensures
        r == if lower_bytes(vstd::utf8::encode_utf8(name@)) == vstd::utf8::encode_utf8("all"@) {
            UpstreamStrategy::All
        } else if lower_bytes(vstd::utf8::encode_utf8(name@)) == vstd::utf8::encode_utf8(
            "random"@,
        ) {
            UpstreamStrategy::Random
        } else {
            UpstreamStrategy::RoundRobin
        },
{
    let l = lowercase_bytes(name.as_bytes());
    if crate::text::bytes_equal(l.as_slice(), "all".as_bytes()) {
        UpstreamStrategy::All
    } else if crate::text::bytes_equal(l.as_slice(), "random".as_bytes()) {
        UpstreamStrategy::Random
    } else {
        UpstreamStrategy::RoundRobin
    }
}

/// The fast-announce mode a configured name selects (`wait`, `async`,
/// `off`, anything else timeout), letters compared without case.
pub fn fast_mode_from_name(name: &str) -> (r: FastMode)
    ensures
        r == if lower_bytes(vstd::utf8::encode_utf8(name@)) == vstd::utf8::encode_utf8("wait"@) {
            FastMode::Wait
        } else if lower_bytes(vstd::utf8::encode_utf8(name@)) == vstd::utf8::encode_utf8(
            "async"@,
        ) {
            FastMode::Async
        } else if lower_bytes(vstd::utf8::encode_utf8(name@)) == vstd::utf8::encode_utf8("off"@) {
            FastMode::Off
        } else {
            FastMode::Timeout
        },
{
    let l = lowercase_bytes(name.as_bytes());
    if crate::text::bytes_equal(l.as_slice(), "wait".as_bytes()) {
        FastMode::Wait
    } else if crate::text::bytes_equal(l.as_slice(), "async".as_bytes()) {
        FastMode::Async
    } else if crate::text::bytes_equal(l.as_slice(), "off".as_bytes()) {
        FastMode::Off
    } else {
        FastMode::Timeout
    }
}

} // verus!
