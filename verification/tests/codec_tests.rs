use credstore::codec::decode_hash;
use credstore::codec::encode_hash;
use credstore::text::parse_u64_digits;
use credstore::text::split_str;
use credstore::text::u64_to_dec;

#[test]
fn encode_exact_text() {
    let h = encode_hash("sha256iter-1", 12, &[1, 2, 3], &[4, 5, 6]);
    assert_eq!(h, "$sha256iter-1$12$AQID$BAUG$");
}

#[test]
fn encode_decode_round_trip() {
    let h = encode_hash("sha256iter-1", 12, &[1, 2, 3], &[4, 5, 6]);
    let p = decode_hash(&h).unwrap();
    assert_eq!(p.tag, "sha256iter-1");
    assert_eq!(p.cost, 12);
    assert_eq!(p.salt, vec![1, 2, 3]);
    assert_eq!(p.digest, vec![4, 5, 6]);
}

#[test]
fn round_trip_edge_fields() {
    // Empty salt and digest, cost zero.
    let h = encode_hash("t", 0, &[], &[]);
    assert_eq!(h, "$t$0$$$");
    let p = decode_hash(&h).unwrap();
    assert_eq!(p.tag, "t");
    assert_eq!(p.cost, 0);
    assert!(p.salt.is_empty());
    assert!(p.digest.is_empty());

    // Largest cost the counter holds.
    let h = encode_hash("tag", u64::MAX, &[0xff], &[0x00]);
    let p = decode_hash(&h).unwrap();
    assert_eq!(p.cost, u64::MAX);
    assert_eq!(p.salt, vec![0xff]);
    assert_eq!(p.digest, vec![0x00]);
}

#[test]
fn decode_rejects_wrong_field_count() {
    assert!(decode_hash("$a$b$").is_none());
    assert!(decode_hash("$a$1$AA==$AA==$extra$").is_none());
    assert!(decode_hash("").is_none());
    assert!(decode_hash("no delimiters at all").is_none());
}

#[test]
fn decode_rejects_missing_framing() {
    assert!(decode_hash("sha256iter-1$4$AQID$BAUG$").is_none());
    assert!(decode_hash("$sha256iter-1$4$AQID$BAUG").is_none());
}

#[test]
fn decode_rejects_bad_cost() {
    assert!(decode_hash("$t$abc$AQID$BAUG$").is_none());
    assert!(decode_hash("$t$$AQID$BAUG$").is_none());
    assert!(decode_hash("$t$-1$AQID$BAUG$").is_none());
    assert!(decode_hash("$t$4x$AQID$BAUG$").is_none());
    // One past the largest value the counter holds.
    assert!(decode_hash("$t$18446744073709551616$AQID$BAUG$").is_none());
}

#[test]
fn decode_rejects_bad_base64() {
    assert!(decode_hash("$t$1$!!$BAUG$").is_none());
    assert!(decode_hash("$t$1$AQID$not base64$").is_none());
    // Non-canonical padding fails the strict decoder.
    assert!(decode_hash("$t$1$AQI$BAUG$").is_none());
}

#[test]
fn parse_digits_edges() {
    assert_eq!(parse_u64_digits("0"), Some(0));
    assert_eq!(parse_u64_digits("007"), Some(7));
    assert_eq!(parse_u64_digits("18446744073709551615"), Some(u64::MAX));
    assert_eq!(parse_u64_digits("18446744073709551616"), None);
    assert_eq!(parse_u64_digits("99999999999999999999999999"), None);
    assert_eq!(parse_u64_digits(""), None);
    assert_eq!(parse_u64_digits("+5"), None);
    assert_eq!(parse_u64_digits(" 5"), None);
    assert_eq!(parse_u64_digits("5a"), None);
}

#[test]
fn render_digits() {
    assert_eq!(u64_to_dec(0), "0");
    assert_eq!(u64_to_dec(12), "12");
    assert_eq!(u64_to_dec(105), "105");
    assert_eq!(u64_to_dec(u64::MAX), "18446744073709551615");
}

#[test]
fn split_on_delimiter() {
    let parts = split_str("a$b$c", '$');
    assert_eq!(parts, vec!["a", "b", "c"]);
    assert_eq!(split_str("", '$'), vec![""]);
    assert_eq!(split_str("$$", '$'), vec!["", "", ""]);
    assert_eq!(split_str("nodelim", '$'), vec!["nodelim"]);
}
