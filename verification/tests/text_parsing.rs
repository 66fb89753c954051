//! The shared number and token parsing helpers.

use submarine::packets::bits_of;
use submarine::text::{chars_of, next_token, parse_i64_range, parse_u64_range};

#[test]
fn parses_extreme_integers() {
    let v = chars_of("-9223372036854775808");
    assert_eq!(parse_i64_range(&v, 0, v.len()), Some(i64::MIN));
    let v = chars_of("9223372036854775807");
    assert_eq!(parse_i64_range(&v, 0, v.len()), Some(i64::MAX));
    let v = chars_of("9223372036854775808");
    assert_eq!(parse_i64_range(&v, 0, v.len()), None);
    let v = chars_of("+42");
    assert_eq!(parse_i64_range(&v, 0, v.len()), Some(42));
    let v = chars_of("4x2");
    assert_eq!(parse_i64_range(&v, 0, v.len()), None);
    let v = chars_of("-");
    assert_eq!(parse_i64_range(&v, 0, v.len()), None);
}

#[test]
fn unsigned_rejects_signs() {
    let v = chars_of("-3");
    assert_eq!(parse_u64_range(&v, 0, v.len()), None);
    let v = chars_of("18446744073709551615");
    assert_eq!(parse_u64_range(&v, 0, v.len()), Some(u64::MAX));
    let v = chars_of("18446744073709551616");
    assert_eq!(parse_u64_range(&v, 0, v.len()), None);
}

#[test]
fn splits_tokens() {
    let v = chars_of("  one \t two ");
    let (a, b) = next_token(&v, 0).unwrap();
    assert_eq!((a, b), (2, 5));
    let (c, d) = next_token(&v, b).unwrap();
    assert_eq!((c, d), (8, 11));
    assert!(next_token(&v, d).is_none());
}

#[test]
fn bits_reject_other_characters() {
    assert!(bits_of("0102").is_none());
    let bits = bits_of("0110").unwrap();
    assert_eq!(bits, vec![0, 1, 1, 0]);
}
