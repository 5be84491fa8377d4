use rust_data_voyager::bytes::{bytes_eq, contains_bytes, strip_bom};
use rust_data_voyager::numeric::parse_uint;
use rust_data_voyager::utf8::check_utf8;

#[test]
fn parse_uint_accepts_plain_and_signed_literals() {
    assert_eq!(parse_uint(b"0", u64::MAX), Some(0));
    assert_eq!(parse_uint(b"123", u64::MAX), Some(123));
    assert_eq!(parse_uint(b"+42", u64::MAX), Some(42));
    assert_eq!(parse_uint(b"007", u64::MAX), Some(7));
    assert_eq!(parse_uint(b"18446744073709551615", u64::MAX), Some(u64::MAX));
}

#[test]
fn parse_uint_rejects_malformed_literals() {
    assert_eq!(parse_uint(b"", u64::MAX), None);
    assert_eq!(parse_uint(b"+", u64::MAX), None);
    assert_eq!(parse_uint(b"-1", u64::MAX), None);
    assert_eq!(parse_uint(b" 1", u64::MAX), None);
    assert_eq!(parse_uint(b"1 ", u64::MAX), None);
    assert_eq!(parse_uint(b"1.5", u64::MAX), None);
    assert_eq!(parse_uint(b"abc", u64::MAX), None);
    assert_eq!(parse_uint(b"++1", u64::MAX), None);
}

#[test]
fn parse_uint_enforces_the_range_limit() {
    assert_eq!(parse_uint(b"65535", 65535), Some(65535));
    assert_eq!(parse_uint(b"65536", 65535), None);
    assert_eq!(parse_uint(b"18446744073709551616", u64::MAX), None);
}

#[test]
fn utf8_checker_accepts_well_formed_sequences() {
    assert!(check_utf8(b""));
    assert!(check_utf8(b"plain ascii"));
    assert!(check_utf8("héllo wörld".as_bytes()));
    assert!(check_utf8("こんにちは".as_bytes()));
    assert!(check_utf8("𝄞 clef".as_bytes()));
}

#[test]
fn utf8_checker_rejects_malformed_sequences() {
    assert!(!check_utf8(&[0xff]));
    assert!(!check_utf8(&[0xc0, 0x80])); // overlong
    assert!(!check_utf8(&[0xed, 0xa0, 0x80])); // surrogate
    assert!(!check_utf8(&[0xf4, 0x90, 0x80, 0x80])); // above U+10FFFF
    assert!(!check_utf8(&[0xe2, 0x82])); // truncated
    assert!(!check_utf8(&[0x80])); // lone continuation
}

#[test]
fn contains_bytes_finds_substrings() {
    assert!(contains_bytes(b"Year of birth", b"Year"));
    assert!(contains_bytes(b"abc", b""));
    assert!(contains_bytes(b"abc", b"abc"));
    assert!(!contains_bytes(b"abc", b"abcd"));
    assert!(!contains_bytes(b"Year", b"year"));
}

#[test]
fn strip_bom_removes_only_a_leading_marker() {
    assert_eq!(strip_bom(&vec![0xef, 0xbb, 0xbf, b'a']), vec![b'a']);
    assert_eq!(strip_bom(&b"abc".to_vec()), b"abc".to_vec());
    assert_eq!(strip_bom(&vec![b'a', 0xef, 0xbb, 0xbf]), vec![b'a', 0xef, 0xbb, 0xbf]);
    assert_eq!(strip_bom(&Vec::new()), Vec::<u8>::new());
}

#[test]
fn bytes_eq_compares_contents() {
    assert!(bytes_eq(b"abc", b"abc"));
    assert!(!bytes_eq(b"abc", b"abd"));
    assert!(!bytes_eq(b"abc", b"ab"));
    assert!(bytes_eq(b"", b""));
}
