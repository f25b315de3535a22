//! Dotted-quad IPv4 addresses: reading them from text and writing them.
use vstd::prelude::*;
use crate::text::{
    decimal, decimal_value, is_ascii_bytes, is_digit, lemma_decimal_digits, lemma_decimal_shape,
    lemma_decimal_value_of_decimal, push_decimal,
};

verus! {

/// The index of the first `c` in `s`, or -1.
pub open spec fn byte_index(s: Seq<u8>, c: u8) -> int
    decreases s.len(),
{
    if s.len() == 0 {
        -1
    } else if s[0] == c {
        0
    } else {
        let r = byte_index(s.drop_first(), c);
        if r < 0 {
            -1
        } else {
            r + 1
        }
    }
}

/// Where the first `c` in `s` lies, if anywhere.
pub proof fn lemma_byte_index(s: Seq<u8>, c: u8)
    ensures
        -1 <= byte_index(s, c) < s.len(),
        byte_index(s, c) >= 0 ==> s[byte_index(s, c)] == c,
        forall|k: int| 0 <= k < s.len() && (byte_index(s, c) < 0 || k < byte_index(s, c)) ==> s[k]
            != c,
    decreases s.len(),
{
    if s.len() > 0 {
        lemma_byte_index(s.drop_first(), c);
        assert forall|k: int|
            0 <= k < s.len() && (byte_index(s, c) < 0 || k < byte_index(s, c)) implies s[k] != c by {
            if k > 0 {
                assert(s[k] == s.drop_first()[k - 1]);
            }
        }
    }
}

/// `s` cut at every `c` (always at least one piece).
pub open spec fn split_bytes(s: Seq<u8>, c: u8) -> Seq<Seq<u8>>
    decreases s.len(),
{
    let i = byte_index(s, c);
    if i < 0 {
        seq![s]
    } else {
        proof {
            lemma_byte_index(s, c);
        }
        seq![s.take(i)] + split_bytes(s.skip(i + 1), c)
    }
}

/// A decimal octet as an IPv4 address writes it: one to three digits, no
/// leading zero, at most 255.
pub open spec fn valid_octet(p: Seq<u8>) -> bool {
    &&& 1 <= p.len() <= 3
    &&& forall|i: int| 0 <= i < p.len() ==> is_digit(#[trigger] p[i])
    &&& !(p.len() > 1 && p[0] == 48)
    &&& decimal_value(p) <= 255
}

/// The four octets of a dotted-quad IPv4 address, `None` for any other text.
pub open spec fn spec_parse_ipv4(s: Seq<u8>) -> Option<Seq<u8>> {
    let parts = split_bytes(s, 46);
    if parts.len() == 4 && forall|k: int| 0 <= k < 4 ==> valid_octet(#[trigger] parts[k]) {
        Some(seq![
            decimal_value(parts[0]) as u8,
            decimal_value(parts[1]) as u8,
            decimal_value(parts[2]) as u8,
            decimal_value(parts[3]) as u8,
        ])
    } else {
        None
    }
}

/// The dotted-quad text of four octets.
pub open spec fn format_ipv4(o: Seq<u8>) -> Seq<u8> {
    decimal(o[0] as nat) + seq![46u8] + decimal(o[1] as nat) + seq![46u8] + decimal(o[2] as nat)
        + seq![46u8] + decimal(o[3] as nat)
}

proof fn lemma_byte_index_absent(x: Seq<u8>, c: u8)
    requires
        forall|i: int| 0 <= i < x.len() ==> x[i] != c,
    ensures
        byte_index(x, c) == -1,
{
    lemma_byte_index(x, c);
}

proof fn lemma_byte_index_after(x: Seq<u8>, c: u8, rest: Seq<u8>)
    requires
        forall|i: int| 0 <= i < x.len() ==> x[i] != c,
    ensures
        byte_index(x + seq![c] + rest, c) == x.len(),
    decreases x.len(),
{
    let s = x + seq![c] + rest;
    if x.len() > 0 {
        lemma_byte_index_after(x.drop_first(), c, rest);
        assert(s.drop_first() =~= x.drop_first() + seq![c] + rest);
        assert(s[0] == x[0]);
    } else {
        assert(s[0] == c);
    }
}

/// Cutting a text whose first piece holds no `c` gives that piece, then the
/// pieces of the rest.
proof fn lemma_split_after(x: Seq<u8>, c: u8, rest: Seq<u8>)
    requires
        forall|i: int| 0 <= i < x.len() ==> x[i] != c,
    ensures
        split_bytes(x + seq![c] + rest, c) == seq![x] + split_bytes(rest, c),
{
    let s = x + seq![c] + rest;
    lemma_byte_index_after(x, c, rest);
    assert(s.take(x.len() as int) =~= x);
    assert(s.skip(x.len() as int + 1) =~= rest);
}

/// The numeral of an octet is a valid octet, worth the octet.
proof fn lemma_octet_numeral(n: u8)
    ensures
        valid_octet(decimal(n as nat)),
        decimal_value(decimal(n as nat)) == n,
        forall|i: int| 0 <= i < decimal(n as nat).len() ==> decimal(n as nat)[i] != 46,
{
    lemma_decimal_digits(n as nat);
    lemma_decimal_shape(n as nat);
    lemma_decimal_value_of_decimal(n as nat);
}

/// The text the tracker writes for four octets reads back as those octets.
pub proof fn lemma_ipv4_round_trip(o: Seq<u8>)
    requires
        o.len() == 4,
    ensures
        spec_parse_ipv4(format_ipv4(o)) == Some(o),
{
    let (a, b, c, d) = (decimal(o[0] as nat), decimal(o[1] as nat), decimal(o[2] as nat), decimal(
        o[3] as nat,
    ));
    lemma_octet_numeral(o[0]);
    lemma_octet_numeral(o[1]);
    lemma_octet_numeral(o[2]);
    lemma_octet_numeral(o[3]);
    let dot = seq![46u8];
    assert(format_ipv4(o) =~= a + dot + (b + dot + (c + dot + d)));
    lemma_split_after(a, 46, b + dot + (c + dot + d));
    lemma_split_after(b, 46, c + dot + d);
    lemma_split_after(c, 46, d);
    lemma_byte_index_absent(d, 46);
    let parts = split_bytes(format_ipv4(o), 46);
    assert(split_bytes(d, 46) == seq![d]);
    assert(parts =~= seq![a, b, c, d]);
    assert(forall|k: int| 0 <= k < 4 ==> valid_octet(#[trigger] parts[k]));
    assert(seq![
        decimal_value(parts[0]) as u8,
        decimal_value(parts[1]) as u8,
        decimal_value(parts[2]) as u8,
        decimal_value(parts[3]) as u8,
    ] =~= o);
}

/// The text of four octets is ASCII.
pub proof fn lemma_format_ipv4_ascii(o: Seq<u8>)
    requires
        o.len() == 4,
    ensures
        is_ascii_bytes(format_ipv4(o)),
{
    lemma_decimal_digits(o[0] as nat);
    lemma_decimal_digits(o[1] as nat);
    lemma_decimal_digits(o[2] as nat);
    lemma_decimal_digits(o[3] as nat);
    let t = format_ipv4(o);
    assert forall|i: int| 0 <= i < t.len() implies #[trigger] t[i] < 128 by {
        let a = decimal(o[0] as nat);
        let b = decimal(o[1] as nat);
        let c = decimal(o[2] as nat);
        let d = decimal(o[3] as nat);
        if i < a.len() {
            assert(t[i] == a[i]);
        } else if i == a.len() {
        } else if i < a.len() + 1 + b.len() {
            assert(t[i] == b[i - a.len() - 1]);
        } else if i == a.len() + 1 + b.len() {
        } else if i < a.len() + 2 + b.len() + c.len() {
            assert(t[i] == c[i - a.len() - b.len() - 2]);
        } else if i == a.len() + 2 + b.len() + c.len() {
        } else {
            assert(t[i] == d[i - a.len() - b.len() - c.len() - 3]);
        }
    }
}

/// Cuts `s` at every `c`.
pub fn split_at_byte(s: &[u8], c: u8) -> (r: Vec<Vec<u8>>)
    ensures
        r@.map_values(|p: Vec<u8>| p@) == split_bytes(s@, c),
{
    let mut out: Vec<Vec<u8>> = Vec::new();
    let mut piece: Vec<u8> = Vec::new();
    let mut i: usize = 0;
    let mut start: usize = 0;
    assert(s@.skip(0) =~= s@);
    assert(out@.map_values(|p: Vec<u8>| p@) + split_bytes(s@.skip(0), c) =~= split_bytes(s@, c));
    while i < s.len()
        invariant
            start <= i <= s@.len(),
            piece@ == s@.subrange(start as int, i as int),
            forall|k: int| start <= k < i ==> s@[k] != c,
            out@.map_values(|p: Vec<u8>| p@) + split_bytes(s@.skip(start as int), c) == split_bytes(
                s@,
                c,
            ),
        decreases s@.len() - i,
    {
        if s[i] == c {
            let ghost rest = s@.skip(start as int);
            proof {
                lemma_byte_index(rest, c);
                assert(rest[i - start] == c);
                assert forall|k: int| 0 <= k < i - start implies rest[k] != c by {
                    assert(rest[k] == s@[start + k]);
                }
                assert(byte_index(rest, c) == i - start);
                assert(rest.take(i - start) =~= piece@);
                assert(rest.skip(i - start + 1) =~= s@.skip(i + 1));
            }
            let ghost prev = out@.map_values(|p: Vec<u8>| p@);
            out.push(piece);
            assert(out@.map_values(|p: Vec<u8>| p@) =~= prev.push(rest.take(i - start)));
            assert(out@.map_values(|p: Vec<u8>| p@) + split_bytes(s@.skip(i + 1), c)
                =~= prev + split_bytes(rest, c));
            piece = Vec::new();
            start = i + 1;
        } else {
            piece.push(s[i]);
        }
        i = i + 1;
        assert(piece@ =~= s@.subrange(start as int, i as int));
    }
    let ghost rest = s@.skip(start as int);
    proof {
        lemma_byte_index(rest, c);
        assert forall|k: int| 0 <= k < rest.len() implies rest[k] != c by {
            assert(rest[k] == s@[start + k]);
        }
        assert(byte_index(rest, c) < 0);
        assert(piece@ =~= rest);
    }
    let ghost prev = out@.map_values(|p: Vec<u8>| p@);
    out.push(piece);
    assert(out@.map_values(|p: Vec<u8>| p@) =~= prev + split_bytes(rest, c));
    out
}

fn octet_value(p: &Vec<u8>) -> (r: Option<u8>)
    ensures
        match r {
            Some(v) => valid_octet(p@) && v == decimal_value(p@),
            None => !valid_octet(p@),
        },
{
    if p.len() < 1 || p.len() > 3 {
        return None;
    }
    if p.len() > 1 && p[0] == 48 {
        return None;
    }
    let mut v: u32 = 0;
    let mut i: usize = 0;
    while i < p.len()
        invariant
            1 <= p@.len() <= 3,
            i <= p@.len(),
            forall|k: int| 0 <= k < i ==> is_digit(#[trigger] p@[k]),
            v == decimal_value(p@.take(i as int)),
            v < 1000,
            i == 0 ==> v == 0,
            i == 1 ==> v < 10,
            i == 2 ==> v < 100,
        decreases p@.len() - i,
    {
        let d = p[i];
        if d < 48 || d > 57 {
            return None;
        }
        assert(p@.take(i + 1).drop_last() =~= p@.take(i as int));
        v = v * 10 + (d - 48) as u32;
        i = i + 1;
    }
    assert(p@.take(i as int) =~= p@);
    if v > 255 {
        return None;
    }
    Some(v as u8)
}

/// The four octets of a dotted-quad IPv4 address, as `str::parse` of an
/// `IpAddr` reads one.
pub fn parse_ipv4(s: &[u8]) -> (r: Option<Vec<u8>>)
    ensures
        match r {
            Some(o) => spec_parse_ipv4(s@) == Some(o@),
            None => spec_parse_ipv4(s@) is None,
        },
{
    let parts = split_at_byte(s, 46);
    let ghost pv = parts@.map_values(|p: Vec<u8>| p@);
    assert(pv == split_bytes(s@, 46));
    if parts.len() != 4 {
        return None;
    }
    let a = octet_value(&parts[0]);
    let b = octet_value(&parts[1]);
    let c = octet_value(&parts[2]);
    let d = octet_value(&parts[3]);
    assert(pv[0] == parts@[0]@ && pv[1] == parts@[1]@ && pv[2] == parts@[2]@ && pv[3]
        == parts@[3]@);
    match (a, b, c, d) {
        (Some(a), Some(b), Some(c), Some(d)) => {
            assert(forall|k: int| 0 <= k < 4 ==> valid_octet(#[trigger] pv[k]));
            let mut o: Vec<u8> = Vec::new();
            o.push(a);
            o.push(b);
            o.push(c);
            o.push(d);
            assert(o@ =~= seq![
                decimal_value(pv[0]) as u8,
                decimal_value(pv[1]) as u8,
                decimal_value(pv[2]) as u8,
                decimal_value(pv[3]) as u8,
            ]);
            Some(o)
        },
        _ => {
            assert(!(forall|k: int| 0 <= k < 4 ==> valid_octet(#[trigger] pv[k])));
            None
        },
    }
}

/// The dotted-quad text of four octets.
pub fn write_ipv4(o: &[u8]) -> (r: Vec<u8>)
    requires
        o@.len() == 4,
    ensures
        r@ == format_ipv4(o@),
        forall|i: int| 0 <= i < r@.len() ==> (#[trigger] r@[i]) < 128,
{
    let mut out: Vec<u8> = Vec::new();
    push_decimal(&mut out, o[0] as u64);
    out.push(46u8);
    push_decimal(&mut out, o[1] as u64);
    out.push(46u8);
    push_decimal(&mut out, o[2] as u64);
    out.push(46u8);
    push_decimal(&mut out, o[3] as u64);
    proof {
        lemma_decimal_digits(o@[0] as nat);
        lemma_decimal_digits(o@[1] as nat);
        lemma_decimal_digits(o@[2] as nat);
        lemma_decimal_digits(o@[3] as nat);
    }
    assert(out@ =~= format_ipv4(o@));
    out
}

} // verus!
