use tracker_server::encoding::{ascii_uppercase, encode_lowercase, hex_char};
use tracker_server::query::{
    decode_double_encoded, first_forwarded, parse_info_hash, raw_query_param, str_equal, InfoHashError,
};

fn one_to_twenty() -> Vec<u8> {
    (1u8..=20).collect()
}

fn some(s: &str) -> Option<String> {
    Some(s.to_string())
}

#[test]
fn hex_char_of_each_nibble() {
    let digits: String = (0u8..16).map(hex_char).collect();
    assert_eq!(digits, "0123456789abcdef");
    assert_eq!(hex_char(16), '?');
    assert_eq!(hex_char(255), '?');
}

#[test]
fn encode_lowercase_writes_every_byte() {
    assert_eq!(encode_lowercase(&[0x00, 0xab, 0x7f, b'A']), "%00%ab%7f%41");
    assert_eq!(encode_lowercase(&[]), "");
}

#[test]
fn ascii_uppercase_only_changes_letters() {
    assert_eq!(ascii_uppercase(b"abz09-Q"), b"ABZ09-Q".to_vec());
}

#[test]
fn info_hash_from_lowercase_hex() {
    let r = parse_info_hash(&some("0102030405060708090a0b0c0d0e0f1011121314"), &None);
    assert_eq!(r, Ok(one_to_twenty()));
}

#[test]
fn info_hash_from_uppercase_hex() {
    let r = parse_info_hash(&some("0102030405060708090A0B0C0D0E0F1011121314"), &None);
    assert_eq!(r, Ok(one_to_twenty()));
}

#[test]
fn info_hash_from_base32_any_case() {
    assert_eq!(parse_info_hash(&some("AEBAGBAFAYDQQCIKBMGA2DQPCAIREEYU"), &None), Ok(one_to_twenty()));
    assert_eq!(parse_info_hash(&some("aebagbafaydqqcikbmga2dqpcaireeyu"), &None), Ok(one_to_twenty()));
}

#[test]
fn info_hash_with_urn_prefix() {
    let r = parse_info_hash(&some("urn:btih:0102030405060708090a0b0c0d0e0f1011121314"), &None);
    assert_eq!(r, Ok(one_to_twenty()));
    let r = parse_info_hash(&some("urn:btih:AEBAGBAFAYDQQCIKBMGA2DQPCAIREEYU"), &None);
    assert_eq!(r, Ok(one_to_twenty()));
}

#[test]
fn info_hash_trimmed_first() {
    let r = parse_info_hash(&some("  0102030405060708090a0b0c0d0e0f1011121314\n"), &None);
    assert_eq!(r, Ok(one_to_twenty()));
}

#[test]
fn info_hash_percent_encoded_raw_bytes() {
    let r = parse_info_hash(&some("%01%02%03%04%05%06%07%08%09%0a%0b%0c%0d%0e%0f%10%11%12%13%14"), &None);
    assert_eq!(r, Ok(one_to_twenty()));
    let r = parse_info_hash(&some("ABCDEFGHIJKLMNOPQRST"), &None);
    assert_eq!(r, Ok(b"ABCDEFGHIJKLMNOPQRST".to_vec()));
}

#[test]
fn info_hash_double_encoded() {
    let twice = "%2501%2502%2503%2504%2505%2506%2507%2508%2509%250A%250B%250C%250D%250E%250F%2510%2511%2512%2513%2514";
    assert_eq!(parse_info_hash(&some(twice), &None), Ok(one_to_twenty()));
}

#[test]
fn info_hash_alias_used_when_first_missing() {
    let r = parse_info_hash(&None, &some("0102030405060708090a0b0c0d0e0f1011121314"));
    assert_eq!(r, Ok(one_to_twenty()));
    let r = parse_info_hash(&some("abc"), &some("0102030405060708090a0b0c0d0e0f1011121314"));
    assert_eq!(r, Err(InfoHashError::Unrecognized { raw_len: 3, decoded_len: 3 }));
}

#[test]
fn info_hash_missing() {
    assert_eq!(parse_info_hash(&None, &None), Err(InfoHashError::Missing));
}

#[test]
fn info_hash_unrecognized_reports_lengths() {
    assert_eq!(
        parse_info_hash(&some("%41bc"), &None),
        Err(InfoHashError::Unrecognized { raw_len: 5, decoded_len: 3 })
    );
    assert_eq!(
        parse_info_hash(&some("urn:btih:xyz"), &None),
        Err(InfoHashError::Unrecognized { raw_len: 12, decoded_len: 3 })
    );
}

#[test]
fn info_hash_32_alnum_not_base32_falls_through() {
    // '1' is no base32 symbol: not base32, and 32 bytes do not make 20
    let r = parse_info_hash(&some("11111111111111111111111111111111"), &None);
    assert_eq!(r, Err(InfoHashError::Unrecognized { raw_len: 32, decoded_len: 32 }));
}

#[test]
fn double_decode_needs_twenty_bytes() {
    assert_eq!(decode_double_encoded(b"%01%02"), None);
    let once = "%01%02%03%04%05%06%07%08%09%0A%0B%0C%0D%0E%0F%10%11%12%13%14";
    assert_eq!(decode_double_encoded(once.as_bytes()), Some(one_to_twenty()));
}

#[test]
fn raw_query_param_takes_first_match() {
    let q = "peer_id=abc&info_hash=%01%02&x&info_hash=zz&ih=";
    assert_eq!(raw_query_param(q, "info_hash"), Some("%01%02".to_string()));
    assert_eq!(raw_query_param(q, "ih"), Some("".to_string()));
    assert_eq!(raw_query_param(q, "x"), None);
    assert_eq!(raw_query_param(q, "port"), None);
    assert_eq!(raw_query_param("", "ih"), None);
    assert_eq!(raw_query_param("a=b=c", "a"), Some("b=c".to_string()));
}

#[test]
fn first_forwarded_address() {
    assert_eq!(first_forwarded(" 1.2.3.4 , 5.6.7.8"), "1.2.3.4");
    assert_eq!(first_forwarded("9.9.9.9"), "9.9.9.9");
    assert_eq!(first_forwarded(""), "");
}

#[test]
fn str_equal_compares_text() {
    assert!(str_equal("abc", "abc"));
    assert!(!str_equal("abc", "abd"));
    assert!(!str_equal("abc", "ab"));
}

#[test]
fn encoded_info_hash_reads_back() {
    let raw: Vec<u8> = vec![0, 255, 37, 32, 10, 1, 2, 3, 4, 5, 6, 7, 8, 9, 10, 11, 12, 13, 14, 15];
    assert_eq!(parse_info_hash(&Some(encode_lowercase(&raw)), &None), Ok(raw.clone()));
    let hex: String = raw.iter().map(|b| format!("{:02x}", b)).collect();
    assert_eq!(parse_info_hash(&Some(hex), &None), Ok(raw));
}
