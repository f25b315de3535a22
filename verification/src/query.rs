//! Reading the parts of an announce request: raw query parameters, the
//! forwarded client address, and the torrent's info-hash in any of the forms
//! clients send it.
use vstd::prelude::*;
use vstd::utf8::*;
use crate::text::{
    ascii_chars, is_alnum, is_ascii_bytes, is_digit, is_hex_digit, is_whitespace, lemma_ascii_utf8, leading_ws, trim,
    trailing_ws, trim_chars, lemma_trim_idempotent,
};
use crate::encoding::{
    base32_decode, base32_decoded, hex_decode, hex_lower, hex_pairs, hex_upper, is_base32_symbol,
    lemma_hex_upper_round_trip, concat_pieces, encodes_byte, is_unreserved, lemma_percent_forms,
    lemma_hex_round_trip, lemma_percent_lower, lemma_percent_round_trip, lossy_percent_decoded,
    lower_hex_digit, percent_lower,
    percent_decode, percent_decode_utf8_lossy, percent_decoded, upper_byte, ascii_uppercase,
};

verus! {

/// The index of the first `c` in `s`, or -1.
pub open spec fn first_index_of(s: Seq<char>, c: char) -> int
    decreases s.len(),
{
    if s.len() == 0 {
        -1
    } else if s[0] == c {
        0
    } else {
        let r = first_index_of(s.drop_first(), c);
        if r < 0 {
            -1
        } else {
            r + 1
        }
    }
}

/// What `str::split_once` gives for a separator character.
pub open spec fn split_once_spec(s: Seq<char>, c: char) -> Option<(Seq<char>, Seq<char>)> {
    let i = first_index_of(s, c);
    if i < 0 {
        None
    } else {
        Some((s.take(i), s.skip(i + 1)))
    }
}

/// The value of the first `key=value` pair of a query string (pairs separated
/// by `&`, a pair split at its first `=`, pairs without `=` skipped).
pub open spec fn query_value(qs: Seq<char>, key: Seq<char>) -> Option<Seq<char>>
    decreases qs.len(),
{
    let (piece, rest) = match split_once_spec(qs, '&') {
        Some((a, b)) => (a, Some(b)),
        None => (qs, None),
    };
    let hit = match split_once_spec(piece, '=') {
        Some((k, v)) => if k == key {
            Some(v)
        } else {
            None
        },
        None => None,
    };
    if hit is Some {
        hit
    } else {
        match rest {
            Some(r) => {
                proof {
                    lemma_first_index_of(qs, '&');
                }
                query_value(r, key)
            },
            None => None,
        }
    }
}

/// Where the first occurrence of `c` in `s` lies, if anywhere.
pub proof fn lemma_first_index_of(s: Seq<char>, c: char)
    ensures
        -1 <= first_index_of(s, c) < s.len(),
        first_index_of(s, c) >= 0 ==> s[first_index_of(s, c)] == c,
        forall|k: int| 0 <= k < s.len() && (first_index_of(s, c) < 0 || k < first_index_of(s, c))
            ==> s[k] != c,
    decreases s.len(),
{
    if s.len() > 0 {
        lemma_first_index_of(s.drop_first(), c);
        assert forall|k: int|
            0 <= k < s.len() && (first_index_of(s, c) < 0 || k < first_index_of(s, c)) implies s[k]
            != c by {
            if k > 0 {
                assert(s[k] == s.drop_first()[k - 1]);
            }
        }
    }
}

/// Calls `str::split_once` with a character: the text before and after the
/// first occurrence of `c`, `None` when there is none.
#[verifier::external_body]
pub(crate) fn split_once_char(s: &str, c: char) -> (r: Option<(&str, &str)>)
    ensures
        match r {
            Some((a, b)) => split_once_spec(s@, c) == Some((a@, b@)),
            None => split_once_spec(s@, c) is None,
        },
{
    s.split_once(c)
}

/// Calls `str::strip_prefix`: the rest of `s` when it starts with `p`.
#[verifier::external_body]
pub(crate) fn strip_prefix<'a>(s: &'a str, p: &str) -> (r: Option<&'a str>)
    ensures
        match r {
            Some(x) => s@.len() >= p@.len() && s@.take(p@.len() as int) == p@ && x@ == s@.skip(
                p@.len() as int,
            ),
            None => !(s@.len() >= p@.len() && s@.take(p@.len() as int) == p@),
        },
{
    s.strip_prefix(p)
}

/// Two texts are equal.
pub fn str_equal(a: &str, b: &str) -> (r: bool)
    ensures
        r == (a@ == b@),
{
    a.to_owned() == b.to_owned()
}

/// The raw (still percent-encoded) value of parameter `key` in a query
/// string: the value of the first `key=value` pair.
pub fn raw_query_param(query: &str, key: &str) -> (r: Option<String>)
    ensures
        match r {
            Some(v) => query_value(query@, key@) == Some(v@),
            None => query_value(query@, key@) is None,
        },
{
    let mut rest: &str = query;
    loop
        invariant
            query_value(query@, key@) == query_value(rest@, key@),
        decreases rest@.len(),
    {
        proof {
            lemma_first_index_of(rest@, '&');
        }
        let (piece, next) = match split_once_char(rest, '&') {
            Some((a, b)) => (a, Some(b)),
            None => (rest, None),
        };
        if let Some((k, v)) = split_once_char(piece, '=') {
            if str_equal(k, key) {
                return Some(v.to_owned());
            }
        }
        match next {
            Some(n) => {
                rest = n;
            },
            None => {
                return None;
            },
        }
    }
}

/// The first address of an `X-Forwarded-For` list: the text before the first
/// comma, trimmed.
pub fn first_forwarded(s: &str) -> (r: String)
    ensures
        r@ == trim_chars(
            match split_once_spec(s@, ',') {
                Some((a, _)) => a,
                None => s@,
            },
        ),
{
    let first = match split_once_char(s, ',') {
        Some((a, _)) => a,
        None => s,
    };
    trim(first).to_owned()
}

/// Why an info-hash could not be read.
#[derive(Debug, Clone, Copy, PartialEq, Eq)]
pub enum InfoHashError {
    /// Neither `info_hash` nor `ih` was given.
    Missing,
    /// Forty hexadecimal digits did not decode to 20 bytes.
    HexLength,
    /// Forty hexadecimal digits failed to decode.
    HexDecode,
    /// Thirty-two base32 symbols did not decode to 20 bytes.
    Base32Length,
    /// No accepted form matched; `raw_len` is the byte length of the trimmed
    /// text and `decoded_len` that of its percent-decoding.
    Unrecognized { raw_len: usize, decoded_len: usize },
}

/// Every byte is a hexadecimal digit.
pub open spec fn all_hex(b: Seq<u8>) -> bool {
    forall|i: int| 0 <= i < b.len() ==> is_hex_digit(#[trigger] b[i])
}

/// Every byte is an ASCII letter or digit.
pub open spec fn all_alnum(b: Seq<u8>) -> bool {
    forall|i: int| 0 <= i < b.len() ==> is_alnum(#[trigger] b[i])
}

/// Every byte is a base32 symbol.
pub open spec fn all_base32(b: Seq<u8>) -> bool {
    forall|i: int| 0 <= i < b.len() ==> is_base32_symbol(#[trigger] b[i])
}

/// The text an info-hash is read from: `info_hash`, else `ih`, trimmed.
pub open spec fn info_hash_source(
    info_hash: Option<Seq<char>>,
    ih: Option<Seq<char>>,
) -> Option<Seq<char>> {
    match info_hash {
        Some(s) => Some(trim_chars(s)),
        None => match ih {
            Some(s) => Some(trim_chars(s)),
            None => None,
        },
    }
}

/// The source text without a leading `urn:btih:`.
pub open spec fn without_urn(t: Seq<char>) -> Seq<char> {
    let p = "urn:btih:"@;
    if t.len() >= p.len() && t.take(p.len() as int) == p {
        t.skip(p.len() as int)
    } else {
        t
    }
}

/// Reading the bytes `b` of an info-hash text: 40 hexadecimal digits; else
/// 32 letters and digits that, made uppercase, are base32; else text whose
/// percent-decoding is 20 bytes; else text holding `%` that is
/// percent-encoded twice (`second` is the decoding of the lossy UTF-8 text of
/// the first decoding).
pub open spec fn info_hash_from_bytes(b: Seq<u8>, raw_len: usize, second: Seq<u8>) -> Result<
    Seq<u8>,
    InfoHashError,
> {
    let up = b.map_values(|c: u8| upper_byte(c));
    if b.len() == 40 && all_hex(b) {
        Ok(hex_pairs(b))
    } else if b.len() == 32 && all_alnum(b) && all_base32(up) {
        Ok(base32_decoded(up))
    } else if percent_decoded(b).len() == 20 {
        Ok(percent_decoded(b))
    } else if b.contains(37u8) && second.len() == 20 {
        Ok(second)
    } else {
        Err(
            InfoHashError::Unrecognized {
                raw_len,
                decoded_len: percent_decoded(b).len() as usize,
            },
        )
    }
}

/// The raw info-hash that an announce names, as the tracker reads it.
pub open spec fn spec_parse_info_hash(
    info_hash: Option<Seq<char>>,
    ih: Option<Seq<char>>,
) -> Result<Seq<u8>, InfoHashError> {
    match info_hash_source(info_hash, ih) {
        None => Err(InfoHashError::Missing),
        Some(t) => {
            let b = encode_utf8(without_urn(t));
            info_hash_from_bytes(
                b,
                encode_utf8(t).len() as usize,
                percent_decoded(lossy_percent_decoded(b)),
            )
        },
    }
}

/// Forty hexadecimal digits that spell `raw` are read as `raw`, alone or
/// after `urn:btih:`.
proof fn lemma_hex_text_accepted(h: Seq<u8>, raw: Seq<u8>)
    requires
        h.len() == 40,
        forall|i: int| 0 <= i < h.len() ==> is_hex_digit(#[trigger] h[i]),
        hex_pairs(h) == raw,
    ensures
        spec_parse_info_hash(Some(ascii_chars(h)), None) == Ok::<Seq<u8>, InfoHashError>(raw),
        spec_parse_info_hash(Some("urn:btih:"@ + ascii_chars(h)), None) == Ok::<
            Seq<u8>,
            InfoHashError,
        >(raw),
{
    assert(is_ascii_bytes(h)) by {
        assert forall|i: int| 0 <= i < h.len() implies #[trigger] h[i] < 128 by {
            assert(is_hex_digit(h[i]));
        }
    }
    lemma_ascii_utf8(h);
    let t = ascii_chars(h);
    assert(t.len() == 40);
    assert(!is_whitespace(t[0])) by {
        assert(is_hex_digit(h[0]));
    }
    assert(leading_ws(t) == 0);
    assert(t.skip(0) =~= t);
    assert(!is_whitespace(t.last())) by {
        assert(is_hex_digit(h[39]));
    }
    assert(trailing_ws(t) == 0);
    assert(t.take(40) =~= t);
    assert(trim_chars(t) == t);
    reveal_strlit("urn:btih:");
    assert(without_urn(t) == t) by {
        assert(is_hex_digit(h[0]));
        assert(t.take(9)[0] != "urn:btih:"@[0]);
    }
    assert(all_hex(h));
    let u = "urn:btih:"@ + t;
    assert(u.len() == 49);
    assert(u[0] == 'u');
    assert(!is_whitespace(u[0]));
    assert(leading_ws(u) == 0);
    assert(u.skip(0) =~= u);
    assert(u.last() == t.last());
    assert(trailing_ws(u) == 0);
    assert(u.take(49) =~= u);
    assert(trim_chars(u) == u);
    assert(u.take(9) =~= "urn:btih:"@);
    assert(u.skip(9) =~= t);
    assert(without_urn(u) == t);
}

/// The lowercase hexadecimal text of any 20 bytes is read as those bytes:
/// the 40-digit form of an info-hash is accepted.
pub proof fn lemma_hex_info_hash_accepted(raw: Seq<u8>)
    requires
        raw.len() == 20,
    ensures
        spec_parse_info_hash(Some(ascii_chars(hex_lower(raw))), None) == Ok::<Seq<u8>, InfoHashError>(raw),
{
    lemma_hex_round_trip(raw);
    lemma_hex_text_accepted(hex_lower(raw), raw);
}

/// The 40 hexadecimal digits of an info-hash are read alike in either case
/// and with or without `urn:btih:` before them.
pub proof fn lemma_hex_forms_accepted(raw: Seq<u8>)
    requires
        raw.len() == 20,
    ensures
        spec_parse_info_hash(Some(ascii_chars(hex_upper(raw))), None) == Ok::<Seq<u8>, InfoHashError>(raw),
        spec_parse_info_hash(Some("urn:btih:"@ + ascii_chars(hex_lower(raw))), None) == Ok::<
            Seq<u8>,
            InfoHashError,
        >(raw),
        spec_parse_info_hash(Some("urn:btih:"@ + ascii_chars(hex_upper(raw))), None) == Ok::<
            Seq<u8>,
            InfoHashError,
        >(raw),
{
    lemma_hex_round_trip(raw);
    lemma_hex_text_accepted(hex_lower(raw), raw);
    lemma_hex_upper_round_trip(raw);
    lemma_hex_text_accepted(hex_upper(raw), raw);
}

/// `info_hash`, when given, is what is read (`ih` is then ignored), and
/// whitespace around it makes no difference.
pub proof fn lemma_info_hash_precedence(a: Seq<char>, ih: Option<Seq<char>>)
    ensures
        spec_parse_info_hash(Some(a), ih) == spec_parse_info_hash(Some(trim_chars(a)), None),
{
    lemma_trim_idempotent(a);
}

/// Any 20 bytes, each written as `%` and two lowercase hexadecimal digits
/// (the form clients send and the tracker sends upstream), are read as those
/// bytes.
pub proof fn lemma_percent_info_hash_accepted(raw: Seq<u8>)
    requires
        raw.len() == 20,
    ensures
        spec_parse_info_hash(Some(ascii_chars(percent_lower(raw))), None) == Ok::<Seq<u8>, InfoHashError>(
            raw,
        ),
{
    let p = percent_lower(raw);
    lemma_percent_lower(raw);
    lemma_percent_round_trip(raw);
    assert(is_ascii_bytes(p)) by {
        assert forall|i: int| 0 <= i < p.len() implies #[trigger] p[i] < 128 by {
            let k = i / 3;
            assert(p[3 * k] == 37);
        }
    }
    lemma_ascii_utf8(p);
    let t = ascii_chars(p);
    assert(t.len() == 60);
    let z: int = 0;
    assert(p[3 * z] == 37);
    assert(p[0] == 37);
    assert(!is_whitespace(t[0]));
    assert(leading_ws(t) == 0);
    assert(t.skip(0) =~= t);
    let l: int = 19;
    assert(p[3 * l + 2] == lower_hex_digit((raw[l] % 16) as nat));
    assert(p[59] == lower_hex_digit((raw[19] % 16) as nat));
    assert(!is_whitespace(t.last()));
    assert(trailing_ws(t) == 0);
    assert(t.take(60) =~= t);
    assert(trim_chars(t) == t);
    assert(without_urn(t) == t) by {
        reveal_strlit("urn:btih:");
        assert(t.take(9)[0] != "urn:btih:"@[0]);
    }
}

/// Any percent-encoding of 20 bytes, each byte written as itself (when
/// unreserved) or as `%` and two hexadecimal digits of either case, is read
/// as those 20 bytes.
pub proof fn lemma_any_percent_info_hash_accepted(ps: Seq<Seq<u8>>, raw: Seq<u8>)
    requires
        raw.len() == 20,
        ps.len() == 20,
        forall|i: int| 0 <= i < ps.len() ==> encodes_byte(#[trigger] ps[i], raw[i]),
    ensures
        spec_parse_info_hash(Some(ascii_chars(concat_pieces(ps))), None) == Ok::<
            Seq<u8>,
            InfoHashError,
        >(raw),
{
    let p = concat_pieces(ps);
    lemma_percent_forms(ps, raw);
    assert(is_ascii_bytes(p)) by {
        assert forall|i: int| 0 <= i < p.len() implies #[trigger] p[i] < 128 by {
            assert(is_unreserved(p[i]) || p[i] == 37 || is_hex_digit(p[i]));
        }
    }
    lemma_ascii_utf8(p);
    let t = ascii_chars(p);
    assert(is_unreserved(p[0]) || p[0] == 37 || is_hex_digit(p[0]));
    assert(!is_whitespace(t[0]));
    assert(leading_ws(t) == 0);
    assert(t.skip(0) =~= t);
    let l = p.len() - 1;
    assert(is_unreserved(p[l]) || p[l] == 37 || is_hex_digit(p[l]));
    assert(!is_whitespace(t.last()));
    assert(trailing_ws(t) == 0);
    assert(t.take(t.len() as int) =~= t);
    assert(trim_chars(t) == t);
    assert(without_urn(t) == t) by {
        reveal_strlit("urn:btih:");
        assert(is_unreserved(p[3]) || p[3] == 37 || is_hex_digit(p[3]));
        assert(t.take(9)[3] != "urn:btih:"@[3]);
    }
    if p.len() != 20 {
        let w = choose|w: int| 0 <= w < p.len() && p[w] == 37u8;
        assert(!is_hex_digit(p[w]) && !is_alnum(p[w]));
        assert(!all_hex(p));
        assert(!all_alnum(p));
    }
}

/// A result with its bytes taken by value.
pub open spec fn bytes_result(r: Result<Vec<u8>, InfoHashError>) -> Result<Seq<u8>, InfoHashError> {
    match r {
        Ok(v) => Ok(v@),
        Err(e) => Err(e),
    }
}

fn all_hex_digits(b: &[u8]) -> (r: bool)
    ensures
        r == all_hex(b@),
{
    let mut i: usize = 0;
    while i < b.len()
        invariant
            i <= b@.len(),
            forall|k: int| 0 <= k < i ==> is_hex_digit(#[trigger] b@[k]),
        decreases b@.len() - i,
    {
        let c = b[i];
        if !((48 <= c && c <= 57) || (97 <= c && c <= 102) || (65 <= c && c <= 70)) {
            return false;
        }
        i = i + 1;
    }
    true
}

fn all_alnum_bytes(b: &[u8]) -> (r: bool)
    ensures
        r == all_alnum(b@),
{
    let mut i: usize = 0;
    while i < b.len()
        invariant
            i <= b@.len(),
            forall|k: int| 0 <= k < i ==> is_alnum(#[trigger] b@[k]),
        decreases b@.len() - i,
    {
        let c = b[i];
        if !((48 <= c && c <= 57) || (97 <= c && c <= 122) || (65 <= c && c <= 90)) {
            return false;
        }
        i = i + 1;
    }
    true
}

fn contains_byte(b: &[u8], x: u8) -> (r: bool)
    ensures
        r == b@.contains(x),
{
    let mut i: usize = 0;
    while i < b.len()
        invariant
            i <= b@.len(),
            forall|k: int| 0 <= k < i ==> b@[k] != x,
        decreases b@.len() - i,
    {
        if b[i] == x {
            assert(b@[i as int] == x);
            return true;
        }
        i = i + 1;
    }
    false
}

/// The second decoding of a twice percent-encoded info-hash: the
/// percent-decoding of `once` when it is 20 bytes long.
pub fn decode_double_encoded(once: &[u8]) -> (r: Option<Vec<u8>>)
    ensures
        match r {
            Some(v) => v@ == percent_decoded(once@) && v@.len() == 20,
            None => percent_decoded(once@).len() != 20,
        },
{
    let second = percent_decode(once);
    if second.len() == 20 {
        Some(second)
    } else {
        None
    }
}

/// Reads the raw info-hash of an announce from `info_hash` (else `ih`),
/// accepting 40 hexadecimal digits, 32 base32 symbols (any case), an
/// optional `urn:btih:` prefix, the percent-encoded 20 raw bytes, and the same
/// percent-encoded twice.
pub fn parse_info_hash(info_hash: &Option<String>, ih: &Option<String>) -> (r: Result<
    Vec<u8>,
    InfoHashError,
>)
    ensures
        bytes_result(r) == spec_parse_info_hash(
            match info_hash {
                Some(s) => Some(s@),
                None => None,
            },
            match ih {
                Some(s) => Some(s@),
                None => None,
            },
        ),
{
    let sel: &String = match info_hash {
        Some(s) => s,
        None => match ih {
            Some(s) => s,
            None => {
                return Err(InfoHashError::Missing);
            },
        },
    };
    let trimmed: &str = trim(sel.as_str());
    let raw: &str = match strip_prefix(trimmed, "urn:btih:") {
        Some(rest) => rest,
        None => trimmed,
    };
    let ghost t = trimmed@;
    assert(raw@ == without_urn(t));
    let b: &[u8] = raw.as_bytes();
    let ghost up = b@.map_values(|c: u8| upper_byte(c));
    if b.len() == 40 && all_hex_digits(b) {
        match hex_decode(b) {
            Ok(bytes) => {
                if bytes.len() == 20 {
                    return Ok(bytes);
                } else {
                    return Err(InfoHashError::HexLength);
                }
            },
            Err(_) => {
                return Err(InfoHashError::HexDecode);
            },
        }
    }
    if b.len() == 32 && all_alnum_bytes(b) {
        let upper = ascii_uppercase(b);
        assert forall|i: int| 0 <= i < upper@.len() implies is_digit(#[trigger] upper@[i]) || (65
            <= upper@[i] <= 90) by {
            assert(is_alnum(b@[i]));
        }
        match base32_decode(upper.as_slice()) {
            Ok(bytes) => {
                if bytes.len() == 20 {
                    return Ok(bytes);
                } else {
                    return Err(InfoHashError::Base32Length);
                }
            },
            Err(_) => {},
        }
    }
    let decoded = percent_decode(b);
    if decoded.len() == 20 {
        return Ok(decoded);
    }
    if contains_byte(b, 37u8) {
        let once = percent_decode_utf8_lossy(b);
        if let Some(second) = decode_double_encoded(once.as_slice()) {
            return Ok(second);
        }
    }
    Err(InfoHashError::Unrecognized { raw_len: trimmed.len(), decoded_len: decoded.len() })
}

} // verus!
