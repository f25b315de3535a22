//! Bytes and text: ASCII classes, decimal numerals, UTF-8 strings built from
//! bytes, and whitespace trimming.
use vstd::prelude::*;
use vstd::utf8::*;

verus! {

/// An ASCII decimal digit.
pub open spec fn is_digit(b: u8) -> bool {
    48 <= b <= 57
}

/// An ASCII hexadecimal digit, either case.
pub open spec fn is_hex_digit(b: u8) -> bool {
    is_digit(b) || (97 <= b <= 102) || (65 <= b <= 70)
}

/// The value of a hexadecimal digit.
pub open spec fn hex_value(b: u8) -> nat {
    if is_digit(b) {
        (b - 48) as nat
    } else if 97 <= b <= 102 {
        (b - 87) as nat
    } else {
        (b - 55) as nat
    }
}

/// An ASCII letter or digit.
pub open spec fn is_alnum(b: u8) -> bool {
    is_digit(b) || (97 <= b <= 122) || (65 <= b <= 90)
}

/// Every byte is ASCII.
pub open spec fn is_ascii_bytes(b: Seq<u8>) -> bool {
    forall|i: int| 0 <= i < b.len() ==> #[trigger] b[i] < 128
}

/// The characters that ASCII bytes stand for.
pub open spec fn ascii_chars(b: Seq<u8>) -> Seq<char> {
    b.map_values(|x: u8| x as char)
}

/// The decimal numeral of `n`, without leading zeros.
pub open spec fn decimal(n: nat) -> Seq<u8>
    decreases n,
{
    if n < 10 {
        seq![(48 + n) as u8]
    } else {
        decimal(n / 10).push((48 + n % 10) as u8)
    }
}

/// The decimal numeral of `n`, with a minus sign when negative.
pub open spec fn signed_decimal(n: int) -> Seq<u8> {
    if n < 0 {
        seq![45u8] + decimal((-n) as nat)
    } else {
        decimal(n as nat)
    }
}

/// The value of a string of decimal digits (0 for the empty string).
pub open spec fn decimal_value(s: Seq<u8>) -> nat
    decreases s.len(),
{
    if s.len() == 0 {
        0
    } else {
        decimal_value(s.drop_last()) * 10 + (s.last() - 48) as nat
    }
}

/// A numeral is made of digits.
pub proof fn lemma_decimal_digits(n: nat)
    ensures
        decimal(n).len() > 0,
        forall|i: int| 0 <= i < decimal(n).len() ==> is_digit(#[trigger] decimal(n)[i]),
    decreases n,
{
    if n >= 10 {
        lemma_decimal_digits(n / 10);
    }
}

/// A numeral reads back as its number.
pub proof fn lemma_decimal_value_of_decimal(n: nat)
    ensures
        decimal_value(decimal(n)) == n,
    decreases n,
{
    let s = decimal(n);
    if n >= 10 {
        lemma_decimal_value_of_decimal(n / 10);
        assert(s.drop_last() =~= decimal(n / 10));
        assert(s.last() == (48 + n % 10) as u8);
        assert(decimal_value(s) == decimal_value(s.drop_last()) * 10 + (s.last() - 48) as nat);
        assert((n / 10) * 10 + n % 10 == n);
    } else {
        assert(s.drop_last() =~= Seq::<u8>::empty());
        assert(decimal_value(s.drop_last()) == 0);
        assert(s.last() == (48 + n) as u8);
    }
}

/// A numeral of a number from 10 up does not start with `0`, and has one
/// digit below 10, two below 100, three below 1000.
pub proof fn lemma_decimal_shape(n: nat)
    ensures
        n >= 10 ==> decimal(n)[0] != 48,
        n < 10 ==> decimal(n).len() == 1,
        10 <= n < 100 ==> decimal(n).len() == 2,
        100 <= n < 1000 ==> decimal(n).len() == 3,
    decreases n,
{
    if n >= 10 {
        lemma_decimal_shape(n / 10);
        assert(decimal(n)[0] == decimal(n / 10)[0]);
    }
}

/// ASCII bytes are valid UTF-8 and decode to the characters they stand for.
pub proof fn lemma_ascii_utf8(b: Seq<u8>)
    requires
        is_ascii_bytes(b),
    ensures
        valid_utf8(b),
        decode_utf8(b) == ascii_chars(b),
        encode_utf8(ascii_chars(b)) == b,
    decreases b.len(),
{
    if b.len() > 0 {
        let rest = b.subrange(1, b.len() as int);
        assert(is_ascii_bytes(rest)) by {
            assert forall|i: int| 0 <= i < rest.len() implies #[trigger] rest[i] < 128 by {
                assert(rest[i] == b[i + 1]);
            }
        }
        lemma_ascii_utf8(rest);
        let b0 = b[0];
        assert(b0 < 128);
        assert(b0 & 0x7f == b0) by (bit_vector)
            requires
                b0 < 128,
        ;
        assert(valid_first_scalar(b));
        assert(pop_first_scalar(b) == rest);
        assert(decode_first_scalar(b) == b0 as u32);
        assert(decode_utf8(b) =~= ascii_chars(b));
        encode_utf8_decode_utf8(ascii_chars(b));
        decode_utf8_encode_utf8(b);
    }
}

/// The text of an optional string.
pub open spec fn text_opt(o: Option<String>) -> Option<Seq<char>> {
    match o {
        Some(s) => Some(s@),
        None => None,
    }
}

/// Every byte is an ASCII digit.
pub open spec fn all_digits(b: Seq<u8>) -> bool {
    forall|i: int| 0 <= i < b.len() ==> is_digit(#[trigger] b[i])
}

/// The digits of an unsigned number: the text after a leading `+`, which
/// counts as a sign only when something follows it.
pub open spec fn unsigned_digits(b: Seq<u8>) -> Seq<u8> {
    if b.len() > 1 && b[0] == 43 {
        b.skip(1)
    } else {
        b
    }
}

/// An unsigned number as `str::parse` reads one for a type whose largest
/// value is `max`: an optional `+`, then decimal digits worth at most `max`.
pub open spec fn parse_unsigned(b: Seq<u8>, max: nat) -> Option<nat> {
    let d = unsigned_digits(b);
    if d.len() > 0 && all_digits(d) && decimal_value(d) <= max {
        Some(decimal_value(d))
    } else {
        None
    }
}

/// A prefix of a digit string is worth no more than the whole.
pub proof fn lemma_decimal_value_prefix(d: Seq<u8>, n: int)
    requires
        0 <= n <= d.len(),
        all_digits(d),
    ensures
        decimal_value(d.take(n)) <= decimal_value(d),
    decreases d.len() - n,
{
    if n < d.len() {
        lemma_decimal_value_prefix(d, n + 1);
        assert(d.take(n + 1).drop_last() =~= d.take(n));
    } else {
        assert(d.take(n) =~= d);
    }
}

/// Reads an unsigned number as `str::parse` does for a type whose largest
/// value is `max`.
pub fn parse_unsigned_text(s: &str, max: u64) -> (r: Option<u64>)
    ensures
        match r {
            Some(v) => parse_unsigned(encode_utf8(s@), max as nat) == Some(v as nat),
            None => parse_unsigned(encode_utf8(s@), max as nat) is None,
        },
{
    let b = s.as_bytes();
    let start: usize = if b.len() > 1 && b[0] == 43 {
        1
    } else {
        0
    };
    let ghost d = b@.skip(start as int);
    assert(d == unsigned_digits(b@)) by {
        if start == 0 {
            assert(b@.skip(0) =~= b@);
        }
    }
    if b.len() - start == 0 {
        return None;
    }
    let mut v: u64 = 0;
    let mut i: usize = start;
    while i < b.len()
        invariant
            start <= i <= b@.len(),
            b@ == encode_utf8(s@),
            d == b@.skip(start as int),
            d == unsigned_digits(b@),
            d.len() > 0,
            forall|k: int| start <= k < i ==> is_digit(#[trigger] b@[k]),
            v == decimal_value(b@.subrange(start as int, i as int)),
            v <= max,
        decreases b@.len() - i,
    {
        let c = b[i];
        if c < 48 || c > 57 {
            assert(d[i - start] == c);
            assert(!all_digits(d));
            return None;
        }
        assert(b@.subrange(start as int, i + 1).drop_last() =~= b@.subrange(start as int, i as int));
        let nv: u128 = v as u128 * 10 + (c - 48) as u128;
        if nv > max as u128 {
            proof {
                assert(d.take((i + 1 - start) as int) =~= b@.subrange(start as int, i + 1));
                if all_digits(d) {
                    lemma_decimal_value_prefix(d, (i + 1 - start) as int);
                }
            }
            return None;
        }
        v = nv as u64;
        i = i + 1;
    }
    assert(b@.subrange(start as int, i as int) =~= d);
    assert(all_digits(d)) by {
        assert forall|k: int| 0 <= k < d.len() implies is_digit(#[trigger] d[k]) by {
            assert(d[k] == b@[start + k]);
        }
    }
    Some(v)
}

/// Appends the decimal numeral of `n`.
pub fn push_decimal(out: &mut Vec<u8>, n: u64)
    ensures
        final(out)@ == old(out)@ + decimal(n as nat),
    decreases n,
{
    if n >= 10 {
        push_decimal(out, n / 10);
    }
    let d = (n % 10) as u8;
    out.push(48u8 + d);
    assert(old(out)@ + decimal(n as nat) =~= final(out)@);
}

/// Appends the decimal numeral of `n`, with a minus sign when negative.
pub fn push_signed_decimal(out: &mut Vec<u8>, n: i64)
    ensures
        final(out)@ == old(out)@ + signed_decimal(n as int),
{
    if n < 0 {
        out.push(45u8);
        let m: i128 = -(n as i128);
        push_decimal(out, m as u64);
        assert(final(out)@ =~= old(out)@ + signed_decimal(n as int));
    } else {
        push_decimal(out, n as u64);
    }
}

/// Appends bytes.
pub fn push_bytes(out: &mut Vec<u8>, b: &[u8])
    ensures
        final(out)@ == old(out)@ + b@,
{
    let mut i: usize = 0;
    while i < b.len()
        invariant
            i <= b@.len(),
            out@ == old(out)@ + b@.take(i as int),
        decreases b@.len() - i,
    {
        out.push(b[i]);
        i = i + 1;
        assert(out@ =~= old(out)@ + b@.take(i as int));
    }
    assert(b@.take(i as int) =~= b@);
}

/// Bytes are equal.
pub fn bytes_equal(a: &[u8], b: &[u8]) -> (r: bool)
    ensures
        r == (a@ == b@),
{
    if a.len() != b.len() {
        return false;
    }
    let mut i: usize = 0;
    while i < a.len()
        invariant
            a@.len() == b@.len(),
            i <= a@.len(),
            forall|k: int| 0 <= k < i ==> a@[k] == b@[k],
        decreases a@.len() - i,
    {
        if a[i] != b[i] {
            return false;
        }
        i = i + 1;
    }
    assert(a@ =~= b@);
    true
}

/// Calls `String::from_utf8`, which accepts exactly the valid UTF-8 byte
/// strings and then holds the characters they encode.
#[verifier::external_body]
fn string_from_utf8(bytes: Vec<u8>) -> (r: Option<String>)
    ensures
        r is Some <==> valid_utf8(bytes@),
        r matches Some(s) ==> s@ == decode_utf8(bytes@),
{
    match String::from_utf8(bytes) {
        Ok(s) => Some(s),
        Err(_) => None,
    }
}

/// The string that UTF-8 bytes encode, `None` when they are not valid UTF-8.
pub fn utf8_string(bytes: Vec<u8>) -> (r: Option<String>)
    ensures
        r is Some <==> valid_utf8(bytes@),
        r matches Some(s) ==> s@ == decode_utf8(bytes@) && encode_utf8(s@) == bytes@,
{
    let ghost b = bytes@;
    let r = string_from_utf8(bytes);
    proof {
        if valid_utf8(b) {
            decode_utf8_encode_utf8(b);
        }
    }
    r
}

/// The string of ASCII bytes.
pub fn ascii_string(bytes: Vec<u8>) -> (r: String)
    requires
        is_ascii_bytes(bytes@),
    ensures
        r@ == ascii_chars(bytes@),
        encode_utf8(r@) == bytes@,
{
    let ghost b = bytes@;
    proof {
        lemma_ascii_utf8(b);
    }
    match utf8_string(bytes) {
        Some(s) => s,
        None => String::new(),
    }
}

/// A character with the Unicode `White_Space` property, as
/// `char::is_whitespace` tests it.
pub open spec fn is_whitespace(c: char) -> bool {
    let u = c as u32;
    (9 <= u <= 13) || u == 32 || u == 0x85 || u == 0xa0 || u == 0x1680 || (0x2000 <= u <= 0x200a)
        || u == 0x2028 || u == 0x2029 || u == 0x202f || u == 0x205f || u == 0x3000
}

/// The number of whitespace characters that `s` starts with.
pub open spec fn leading_ws(s: Seq<char>) -> nat
    decreases s.len(),
{
    if s.len() > 0 && is_whitespace(s[0]) {
        1 + leading_ws(s.drop_first())
    } else {
        0
    }
}

/// The number of whitespace characters that `s` ends with.
pub open spec fn trailing_ws(s: Seq<char>) -> nat
    decreases s.len(),
{
    if s.len() > 0 && is_whitespace(s.last()) {
        1 + trailing_ws(s.drop_last())
    } else {
        0
    }
}

/// `s` without its leading and trailing whitespace.
pub open spec fn trim_chars(s: Seq<char>) -> Seq<char> {
    let t = s.skip(leading_ws(s) as int);
    t.take(t.len() - trailing_ws(t))
}

proof fn lemma_leading_ws(s: Seq<char>)
    ensures
        leading_ws(s) <= s.len(),
        leading_ws(s) < s.len() ==> !is_whitespace(s[leading_ws(s) as int]),
    decreases s.len(),
{
    if s.len() > 0 && is_whitespace(s[0]) {
        lemma_leading_ws(s.drop_first());
        if leading_ws(s) < s.len() {
            assert(s[leading_ws(s) as int] == s.drop_first()[leading_ws(s.drop_first()) as int]);
        }
    }
}

proof fn lemma_trailing_ws(s: Seq<char>)
    ensures
        trailing_ws(s) <= s.len(),
        trailing_ws(s) < s.len() ==> !is_whitespace(s[s.len() - trailing_ws(s) - 1]),
    decreases s.len(),
{
    if s.len() > 0 && is_whitespace(s.last()) {
        lemma_trailing_ws(s.drop_last());
        if trailing_ws(s) < s.len() {
            let d = s.drop_last();
            assert(s[s.len() - trailing_ws(s) - 1] == d[d.len() - trailing_ws(d) - 1]);
        }
    }
}

/// Trimming trimmed text changes nothing.
pub proof fn lemma_trim_idempotent(s: Seq<char>)
    ensures
        trim_chars(trim_chars(s)) == trim_chars(s),
{
    lemma_leading_ws(s);
    let t = s.skip(leading_ws(s) as int);
    lemma_trailing_ws(t);
    let r = trim_chars(s);
    assert(r == t.take(t.len() - trailing_ws(t)));
    if r.len() > 0 {
        assert(r[0] == s[leading_ws(s) as int]);
        assert(!is_whitespace(r[0]));
        assert(r.last() == t[t.len() - trailing_ws(t) - 1]);
    }
    assert(leading_ws(r) == 0);
    assert(r.skip(0) =~= r);
    assert(trailing_ws(r) == 0);
    assert(r.take(r.len() as int) =~= r);
}

/// Calls `str::trim`, which drops the leading and trailing characters that
/// have the `White_Space` property.
#[verifier::external_body]
pub(crate) fn trim(s: &str) -> (r: &str)
    ensures
        r@ == trim_chars(s@),
{
    s.trim()
}

/// The address is the IPv4 loopback address written `127.0.0.1`.
pub fn is_localhost(ip: &str) -> (r: bool)
    ensures
        r == (ip@ == "127.0.0.1"@),
{
    ip.to_owned() == "127.0.0.1".to_owned()
}

} // verus!
