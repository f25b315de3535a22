//! Hexadecimal, percent and base32 encodings of byte strings.
use vstd::prelude::*;
use vstd::utf8::*;
use crate::text::{ascii_chars, ascii_string, hex_value, is_alnum, is_ascii_bytes, is_digit, is_hex_digit};

verus! {

/// The lowercase hexadecimal digit of a nibble.
pub open spec fn lower_hex_digit(n: nat) -> u8 {
    if n < 10 {
        (48 + n) as u8
    } else {
        (87 + n) as u8
    }
}

/// The uppercase hexadecimal digit of a nibble.
pub open spec fn upper_hex_digit(n: nat) -> u8 {
    if n < 10 {
        (48 + n) as u8
    } else {
        (55 + n) as u8
    }
}

/// The character of a nibble in lowercase hexadecimal, `?` for a value above 15.
pub open spec fn spec_hex_char(n: u8) -> char {
    if n < 16 {
        lower_hex_digit(n as nat) as char
    } else {
        '?'
    }
}

/// Each byte as `%` and two lowercase hexadecimal digits.
pub open spec fn percent_lower(b: Seq<u8>) -> Seq<u8>
    decreases b.len(),
{
    if b.len() == 0 {
        Seq::empty()
    } else {
        percent_lower(b.drop_last()) + seq![
            37u8,
            lower_hex_digit((b.last() / 16) as nat),
            lower_hex_digit((b.last() % 16) as nat),
        ]
    }
}

/// Each byte as two lowercase hexadecimal digits.
pub open spec fn hex_lower(b: Seq<u8>) -> Seq<u8>
    decreases b.len(),
{
    if b.len() == 0 {
        Seq::empty()
    } else {
        hex_lower(b.drop_last()) + seq![
            lower_hex_digit((b.last() / 16) as nat),
            lower_hex_digit((b.last() % 16) as nat),
        ]
    }
}

/// Where each byte's two digits stand in its lowercase hexadecimal text.
pub proof fn lemma_hex_lower(b: Seq<u8>)
    ensures
        hex_lower(b).len() == 2 * b.len(),
        forall|i: int|
            0 <= i < b.len() ==> #[trigger] hex_lower(b)[2 * i] == lower_hex_digit((b[i] / 16) as nat)
                && hex_lower(b)[2 * i + 1] == lower_hex_digit((b[i] % 16) as nat),
    decreases b.len(),
{
    if b.len() > 0 {
        let p = b.drop_last();
        lemma_hex_lower(p);
        assert forall|i: int| 0 <= i < b.len() implies #[trigger] hex_lower(b)[2 * i]
            == lower_hex_digit((b[i] / 16) as nat) && hex_lower(b)[2 * i + 1] == lower_hex_digit(
            (b[i] % 16) as nat,
        ) by {
            if i < b.len() - 1 {
                assert(hex_lower(p)[2 * i] == lower_hex_digit((p[i] / 16) as nat));
                assert(hex_lower(p)[2 * i + 1] == lower_hex_digit((p[i] % 16) as nat));
            }
        }
    }
}

/// Lowercase hexadecimal text is ASCII hexadecimal digits that decode back
/// to the bytes it was made from.
pub proof fn lemma_hex_round_trip(b: Seq<u8>)
    ensures
        hex_lower(b).len() == 2 * b.len(),
        is_ascii_bytes(hex_lower(b)),
        forall|i: int| 0 <= i < hex_lower(b).len() ==> is_hex_digit(#[trigger] hex_lower(b)[i]),
        hex_pairs(hex_lower(b)) == b,
{
    lemma_hex_lower(b);
    let h = hex_lower(b);
    assert forall|i: int| 0 <= i < h.len() implies is_hex_digit(#[trigger] h[i]) && h[i] < 128 by {
        let k = i / 2;
        if i % 2 == 0 {
            assert(i == 2 * k);
            assert(h[2 * k] == lower_hex_digit((b[k] / 16) as nat));
        } else {
            assert(i == 2 * k + 1);
            assert(h[2 * k] == lower_hex_digit((b[k] / 16) as nat));
        }
    }
    assert forall|i: int| 0 <= i < b.len() implies #[trigger] hex_pairs(h)[i] == b[i] by {
        assert(h[2 * i] == lower_hex_digit((b[i] / 16) as nat));
        assert(hex_value(h[2 * i]) == b[i] / 16);
        assert(hex_value(h[2 * i + 1]) == b[i] % 16);
    }
    assert(hex_pairs(h) =~= b);
}

/// Each byte as two uppercase hexadecimal digits.
pub open spec fn hex_upper(b: Seq<u8>) -> Seq<u8>
    decreases b.len(),
{
    if b.len() == 0 {
        Seq::empty()
    } else {
        hex_upper(b.drop_last()) + seq![
            upper_hex_digit((b.last() / 16) as nat),
            upper_hex_digit((b.last() % 16) as nat),
        ]
    }
}

proof fn lemma_hex_upper(b: Seq<u8>)
    ensures
        hex_upper(b).len() == 2 * b.len(),
        forall|i: int|
            0 <= i < b.len() ==> #[trigger] hex_upper(b)[2 * i] == upper_hex_digit((b[i] / 16) as nat)
                && hex_upper(b)[2 * i + 1] == upper_hex_digit((b[i] % 16) as nat),
    decreases b.len(),
{
    if b.len() > 0 {
        let p = b.drop_last();
        lemma_hex_upper(p);
        assert forall|i: int| 0 <= i < b.len() implies #[trigger] hex_upper(b)[2 * i]
            == upper_hex_digit((b[i] / 16) as nat) && hex_upper(b)[2 * i + 1] == upper_hex_digit(
            (b[i] % 16) as nat,
        ) by {
            if i < b.len() - 1 {
                assert(hex_upper(p)[2 * i] == upper_hex_digit((p[i] / 16) as nat));
                assert(hex_upper(p)[2 * i + 1] == upper_hex_digit((p[i] % 16) as nat));
            }
        }
    }
}

/// Uppercase hexadecimal text is ASCII hexadecimal digits that decode back
/// to the bytes it was made from.
pub proof fn lemma_hex_upper_round_trip(b: Seq<u8>)
    ensures
        hex_upper(b).len() == 2 * b.len(),
        is_ascii_bytes(hex_upper(b)),
        forall|i: int| 0 <= i < hex_upper(b).len() ==> is_hex_digit(#[trigger] hex_upper(b)[i]),
        hex_pairs(hex_upper(b)) == b,
{
    lemma_hex_upper(b);
    let h = hex_upper(b);
    assert forall|i: int| 0 <= i < h.len() implies is_hex_digit(#[trigger] h[i]) && h[i] < 128 by {
        let k = i / 2;
        if i % 2 == 0 {
            assert(i == 2 * k);
            assert(h[2 * k] == upper_hex_digit((b[k] / 16) as nat));
        } else {
            assert(i == 2 * k + 1);
            assert(h[2 * k] == upper_hex_digit((b[k] / 16) as nat));
        }
    }
    assert forall|i: int| 0 <= i < b.len() implies #[trigger] hex_pairs(h)[i] == b[i] by {
        assert(h[2 * i] == upper_hex_digit((b[i] / 16) as nat));
        assert(hex_value(h[2 * i]) == b[i] / 16);
        assert(hex_value(h[2 * i + 1]) == b[i] % 16);
    }
    assert(hex_pairs(h) =~= b);
}

/// Where each byte's `%` and two digits stand in its percent-encoding.
pub proof fn lemma_percent_lower(b: Seq<u8>)
    ensures
        percent_lower(b).len() == 3 * b.len(),
        forall|i: int|
            0 <= i < b.len() ==> #[trigger] percent_lower(b)[3 * i] == 37 && percent_lower(b)[3 * i
                + 1] == lower_hex_digit((b[i] / 16) as nat) && percent_lower(b)[3 * i + 2]
                == lower_hex_digit((b[i] % 16) as nat),
    decreases b.len(),
{
    if b.len() > 0 {
        let p = b.drop_last();
        lemma_percent_lower(p);
        assert forall|i: int| 0 <= i < b.len() implies #[trigger] percent_lower(b)[3 * i] == 37
            && percent_lower(b)[3 * i + 1] == lower_hex_digit((b[i] / 16) as nat) && percent_lower(
            b,
        )[3 * i + 2] == lower_hex_digit((b[i] % 16) as nat) by {
            if i < b.len() - 1 {
                assert(percent_lower(p)[3 * i] == 37);
                assert(percent_lower(p)[3 * i + 1] == lower_hex_digit((p[i] / 16) as nat));
                assert(percent_lower(p)[3 * i + 2] == lower_hex_digit((p[i] % 16) as nat));
            }
        }
    }
}

/// The percent-encoding of two byte strings one after the other is the
/// encoding of the first followed by that of the second.
pub proof fn lemma_percent_lower_append(a: Seq<u8>, b: Seq<u8>)
    ensures
        percent_lower(a + b) == percent_lower(a) + percent_lower(b),
    decreases b.len(),
{
    if b.len() == 0 {
        assert(a + b =~= a);
        assert(percent_lower(a) + percent_lower(b) =~= percent_lower(a));
    } else {
        lemma_percent_lower_append(a, b.drop_last());
        assert((a + b).drop_last() =~= a + b.drop_last());
        assert((a + b).last() == b.last());
        let t = seq![
            37u8,
            lower_hex_digit((b.last() / 16) as nat),
            lower_hex_digit((b.last() % 16) as nat),
        ];
        assert(percent_lower(a) + percent_lower(b.drop_last()) + t =~= percent_lower(a) + (
        percent_lower(b.drop_last()) + t));
    }
}

/// Percent-decoding gives back the bytes that were percent-encoded: what
/// the tracker sends upstream for a raw info-hash reads as that info-hash.
pub proof fn lemma_percent_round_trip(b: Seq<u8>)
    ensures
        percent_decoded(percent_lower(b)) == b,
    decreases b.len(),
{
    if b.len() > 0 {
        let first = seq![b[0]];
        let rest = b.drop_first();
        assert(b =~= first + rest);
        lemma_percent_lower_append(first, rest);
        assert(first.drop_last() =~= Seq::<u8>::empty());
        let hi = lower_hex_digit((b[0] / 16) as nat);
        let lo = lower_hex_digit((b[0] % 16) as nat);
        assert(percent_lower(Seq::<u8>::empty()) =~= Seq::<u8>::empty());
        assert(first.last() == b[0]);
        assert(percent_lower(first) =~= seq![37u8, hi, lo]);
        let s = percent_lower(b);
        assert(s =~= seq![37u8, hi, lo] + percent_lower(rest));
        lemma_percent_round_trip(rest);
        assert(s.skip(3) =~= percent_lower(rest));
        assert(is_hex_digit(hi) && is_hex_digit(lo));
        assert(hex_value(hi) * 16 + hex_value(lo) == b[0]);
        assert(percent_decoded(s) =~= seq![b[0]] + rest);
    }
}

/// A byte a URL may hold as itself: a letter, a digit, `-`, `.`, `_` or `~`.
pub open spec fn is_unreserved(c: u8) -> bool {
    is_alnum(c) || c == 45 || c == 46 || c == 95 || c == 126
}

/// `piece` writes the byte `x` in a percent-encoding: `x` itself when it is
/// unreserved, or `%` and two hexadecimal digits of either case.
pub open spec fn encodes_byte(piece: Seq<u8>, x: u8) -> bool {
    ||| piece == seq![x] && is_unreserved(x)
    ||| piece.len() == 3 && piece[0] == 37 && is_hex_digit(piece[1]) && is_hex_digit(piece[2])
        && hex_value(piece[1]) * 16 + hex_value(piece[2]) == x
}

/// The pieces written one after the other.
pub open spec fn concat_pieces(ps: Seq<Seq<u8>>) -> Seq<u8>
    decreases ps.len(),
{
    if ps.len() == 0 {
        Seq::empty()
    } else {
        ps[0] + concat_pieces(ps.drop_first())
    }
}

/// Any percent-encoding of `raw`, each byte written as itself (when
/// unreserved) or as `%` and two hexadecimal digits of either case, decodes
/// to `raw`. It holds only unreserved bytes, `%` and hexadecimal digits; it
/// has a `%` unless it is `raw` itself, byte for byte; and it does not end
/// with `%`.
pub proof fn lemma_percent_forms(ps: Seq<Seq<u8>>, raw: Seq<u8>)
    requires
        ps.len() == raw.len(),
        forall|i: int| 0 <= i < ps.len() ==> encodes_byte(#[trigger] ps[i], raw[i]),
    ensures
        percent_decoded(concat_pieces(ps)) == raw,
        forall|j: int|
            0 <= j < concat_pieces(ps).len() ==> is_unreserved(#[trigger] concat_pieces(ps)[j])
                || concat_pieces(ps)[j] == 37 || is_hex_digit(concat_pieces(ps)[j]),
        concat_pieces(ps).len() >= raw.len(),
        concat_pieces(ps).len() == raw.len() || concat_pieces(ps).contains(37u8),
        raw.len() > 0 ==> concat_pieces(ps).last() != 37,
    decreases ps.len(),
{
    let t = concat_pieces(ps);
    if ps.len() > 0 {
        let rest = ps.drop_first();
        let rr = raw.drop_first();
        assert forall|i: int| 0 <= i < rest.len() implies encodes_byte(#[trigger] rest[i], rr[i]) by {
            assert(encodes_byte(ps[i + 1], raw[i + 1]));
        }
        lemma_percent_forms(rest, rr);
        let u = concat_pieces(rest);
        let p = ps[0];
        assert(encodes_byte(ps[0], raw[0]));
        assert(t == p + u);
        if p == seq![raw[0]] && is_unreserved(raw[0]) {
            assert(t[0] == raw[0]);
            assert(t.skip(1) =~= u);
            assert(percent_decoded(t) == seq![t[0]] + percent_decoded(t.skip(1)));
            assert(percent_decoded(t) =~= raw);
            if u.len() == rr.len() {
            } else {
                let w = choose|w: int| 0 <= w < u.len() && u[w] == 37u8;
                assert(t[w + 1] == 37u8);
            }
        } else {
            assert(t[0] == 37 && t[1] == p[1] && t[2] == p[2]);
            assert(t.skip(3) =~= u);
            assert(percent_decoded(t) =~= raw);
            assert(t[0] == 37u8);
        }
        assert forall|j: int| 0 <= j < t.len() implies is_unreserved(#[trigger] t[j]) || t[j] == 37
            || is_hex_digit(t[j]) by {
            if j >= p.len() {
                assert(t[j] == u[j - p.len()]);
            }
        }
        if rr.len() == 0 {
            assert(u.len() == 0);
            assert(t.last() == p.last());
        } else {
            assert(t.last() == u.last());
        }
    }
}

/// Letters and digits kept, every other byte as `%` and two uppercase
/// hexadecimal digits.
pub open spec fn percent_upper_non_alnum(b: Seq<u8>) -> Seq<u8>
    decreases b.len(),
{
    if b.len() == 0 {
        Seq::empty()
    } else if is_alnum(b.last()) {
        percent_upper_non_alnum(b.drop_last()).push(b.last())
    } else {
        percent_upper_non_alnum(b.drop_last()) + seq![
            37u8,
            upper_hex_digit((b.last() / 16) as nat),
            upper_hex_digit((b.last() % 16) as nat),
        ]
    }
}

/// The bytes that pairs of hexadecimal digits stand for, high nibble first.
pub open spec fn hex_pairs(s: Seq<u8>) -> Seq<u8> {
    Seq::new(
        s.len() / 2,
        |i: int| (hex_value(s[2 * i]) * 16 + hex_value(s[2 * i + 1])) as u8,
    )
}

/// Percent-decoding: every `%` followed by two hexadecimal digits becomes the
/// byte they stand for; every other byte stays.
pub open spec fn percent_decoded(s: Seq<u8>) -> Seq<u8>
    decreases s.len(),
{
    if s.len() == 0 {
        Seq::empty()
    } else if s[0] == 37 && s.len() >= 3 && is_hex_digit(s[1]) && is_hex_digit(s[2]) {
        seq![(hex_value(s[1]) * 16 + hex_value(s[2])) as u8] + percent_decoded(s.skip(3))
    } else {
        seq![s[0]] + percent_decoded(s.skip(1))
    }
}

/// A symbol of the RFC 4648 base32 alphabet `A`–`Z`, `2`–`7`.
pub open spec fn is_base32_symbol(c: u8) -> bool {
    (65 <= c <= 90) || (50 <= c <= 55)
}

/// The value of a base32 symbol.
pub open spec fn base32_value(c: u8) -> nat {
    if 65 <= c <= 90 {
        (c - 65) as nat
    } else {
        (c - 24) as nat
    }
}

/// The 40-bit number that the `g`-th group of eight base32 symbols spells.
pub open spec fn base32_group(s: Seq<u8>, g: int) -> nat {
    let v = |k: int| base32_value(s[8 * g + k]);
    ((((((v(0) * 32 + v(1)) * 32 + v(2)) * 32 + v(3)) * 32 + v(4)) * 32 + v(5)) * 32 + v(6)) * 32
        + v(7)
}

/// 256 to the power `e`.
pub open spec fn pow256(e: nat) -> nat
    decreases e,
{
    if e == 0 {
        1
    } else {
        256 * pow256((e - 1) as nat)
    }
}

/// Base32 decoding of groups of eight symbols: each group gives five bytes,
/// most significant first.
pub open spec fn base32_decoded(s: Seq<u8>) -> Seq<u8> {
    Seq::new(
        (s.len() / 8 * 5) as nat,
        |i: int| ((base32_group(s, i / 5) / pow256((4 - i % 5) as nat)) % 256) as u8,
    )
}

/// An ASCII letter made uppercase; other bytes unchanged.
pub open spec fn upper_byte(c: u8) -> u8 {
    if 97 <= c <= 122 {
        (c - 32) as u8
    } else {
        c
    }
}

/// The lowercase hexadecimal character of a nibble, `?` above 15.
pub fn hex_char(n: u8) -> (c: char)
    ensures
        c == spec_hex_char(n),
{
    if n <= 9 {
        (48u8 + n) as char
    } else if n <= 15 {
        (97u8 + (n - 10)) as char
    } else {
        '?'
    }
}

/// Every byte written as `%` and two lowercase hexadecimal digits, the form
/// used for raw bytes in a tracker query string.
pub fn encode_lowercase(bytes: &[u8]) -> (r: String)
    ensures
        r@ == ascii_chars(percent_lower(bytes@)),
{
    let mut out: Vec<u8> = Vec::new();
    let mut i: usize = 0;
    while i < bytes.len()
        invariant
            i <= bytes@.len(),
            out@ == percent_lower(bytes@.take(i as int)),
            is_ascii_bytes(out@),
        decreases bytes@.len() - i,
    {
        let b = bytes[i];
        assert(b >> 4 == b / 16 && b & 0x0f == b % 16) by (bit_vector);
        out.push(37u8);
        out.push(hex_char(b >> 4) as u8);
        out.push(hex_char(b & 0x0f) as u8);
        assert(bytes@.take(i + 1).drop_last() =~= bytes@.take(i as int));
        i = i + 1;
    }
    assert(bytes@.take(i as int) =~= bytes@);
    ascii_string(out)
}

/// Bytes as uppercase ASCII.
pub fn ascii_uppercase(b: &[u8]) -> (r: Vec<u8>)
    ensures
        r@ == b@.map_values(|c: u8| upper_byte(c)),
{
    let mut out: Vec<u8> = Vec::new();
    let mut i: usize = 0;
    while i < b.len()
        invariant
            i <= b@.len(),
            out@ == b@.take(i as int).map_values(|c: u8| upper_byte(c)),
        decreases b@.len() - i,
    {
        let c = b[i];
        let u = if 97 <= c && c <= 122 {
            c - 32
        } else {
            c
        };
        out.push(u);
        i = i + 1;
        assert(out@ =~= b@.take(i as int).map_values(|c: u8| upper_byte(c)));
    }
    assert(b@.take(i as int) =~= b@);
    out
}

/// Calls `hex::encode`, which writes each byte as two lowercase hexadecimal
/// digits, high nibble first.
#[verifier::external_body]
pub(crate) fn hex_encode(data: &[u8]) -> (r: String)
    ensures
        r@ == ascii_chars(hex_lower(data@)),
{
    hex::encode(data)
}

#[verifier::external_type_specification]
#[verifier::external_body]
pub struct ExFromHexError(hex::FromHexError);

/// Calls `hex::decode`, which succeeds exactly on an even number of
/// hexadecimal digits (either case) and then gives one byte per pair of
/// digits, high nibble first.
#[verifier::external_body]
pub(crate) fn hex_decode(data: &[u8]) -> (r: Result<Vec<u8>, hex::FromHexError>)
    ensures
        r is Ok <==> (data@.len() % 2 == 0 && forall|i: int|
            0 <= i < data@.len() ==> is_hex_digit(#[trigger] data@[i])),
        r matches Ok(v) ==> v@ == hex_pairs(data@),
{
    hex::decode(data)
}

/// Calls `percent_encoding::percent_decode` and collects the bytes: every `%`
/// followed by two hexadecimal digits is decoded, every other byte kept.
#[verifier::external_body]
pub(crate) fn percent_decode(input: &[u8]) -> (r: Vec<u8>)
    ensures
        r@ == percent_decoded(input@),
{
    percent_encoding::percent_decode(input).collect::<Vec<u8>>()
}

/// The bytes of the text that `PercentDecode::decode_utf8_lossy` makes of
/// `input`: its percent-decoding read as UTF-8, with invalid sequences
/// replaced by U+FFFD. Only its validity, and that valid UTF-8 comes back
/// unchanged, are stated of it.
pub uninterp spec fn lossy_percent_decoded(input: Seq<u8>) -> Seq<u8>;

/// Calls `percent_encoding::percent_decode(input).decode_utf8_lossy()` and
/// keeps the bytes of the text. The text is always valid UTF-8, and when the
/// decoded bytes are valid UTF-8 they come back unchanged, as the
/// documentation of `String::from_utf8_lossy` says; the replacement of
/// invalid sequences is not stated.
#[verifier::external_body]
pub(crate) fn percent_decode_utf8_lossy(input: &[u8]) -> (r: Vec<u8>)
    ensures
        r@ == lossy_percent_decoded(input@),
        valid_utf8(r@),
        valid_utf8(percent_decoded(input@)) ==> r@ == percent_decoded(input@),
{
    percent_encoding::percent_decode(input).decode_utf8_lossy().into_owned().into_bytes()
}

/// Calls `percent_encoding::percent_encode` with the `NON_ALPHANUMERIC` set:
/// ASCII letters and digits are kept and every other byte becomes `%` and two
/// uppercase hexadecimal digits.
#[verifier::external_body]
pub(crate) fn percent_encode_non_alnum(input: &[u8]) -> (r: String)
    ensures
        r@ == ascii_chars(percent_upper_non_alnum(input@)),
{
    percent_encoding::percent_encode(input, percent_encoding::NON_ALPHANUMERIC).to_string()
}

#[verifier::external_type_specification]
#[verifier::external_body]
pub struct ExDecodeError(data_encoding::DecodeError);

/// Calls `data_encoding::BASE32.decode` on 32 ASCII letters or digits
/// (uppercase): it succeeds exactly when all are base32 symbols, and then
/// gives the 20 bytes they spell.
#[verifier::external_body]
pub(crate) fn base32_decode(input: &[u8]) -> (r: Result<Vec<u8>, data_encoding::DecodeError>)
    requires
        input@.len() == 32,
        forall|i: int|
            0 <= i < input@.len() ==> is_digit(#[trigger] input@[i]) || (65 <= input@[i] <= 90),
    ensures
        r is Ok <==> forall|i: int| 0 <= i < input@.len() ==> is_base32_symbol(#[trigger] input@[i]),
        r matches Ok(v) ==> v@ == base32_decoded(input@),
{
    data_encoding::BASE32.decode(input)
}

} // verus!
