use openplay::keymap::{bytes_less, bytes_same, compare_bytes, KeyMap, KeyOrder};
use openplay::octets::{copy_range, find_byte, push_be16};
use openplay::text::{
    bytes_eq_ignore_ascii_case, check_all_digits, parse_decimal, text_concat, text_with_number,
};
use openplay::Error;

#[test]
fn error_messages_name_their_kind() {
    assert_eq!(Error::Discovery("short header".to_string()).message(), "discovery: short header");
    assert_eq!(Error::Rtsp("empty response".to_string()).message(), "rtsp: empty response");
    assert_eq!(Error::Pairing("srp: x".to_string()).message(), "pairing: srp: x");
    assert_eq!(Error::Crypto("bad tag".to_string()).message(), "crypto: bad tag");
    assert_eq!(Error::Protocol("info: missing pk".to_string()).message(), "protocol: info: missing pk");
    let io = std::io::Error::new(std::io::ErrorKind::Other, "socket gone");
    let e = Error::from(io);
    assert!(matches!(e, Error::Io(_)));
    assert!(e.message().starts_with("io: "));
    assert!(e.message().contains("socket gone"));
}

#[test]
fn keymap_keeps_keys_sorted_and_unique() {
    let mut m: KeyMap<String> = KeyMap::new();
    assert_eq!(m.len(), 0);
    m.insert("model".to_string(), "J305".to_string());
    m.insert("features".to_string(), "0x445D0A00".to_string());
    m.insert("pk".to_string(), "ab".to_string());
    m.insert("model".to_string(), "J306".to_string());
    assert_eq!(m.len(), 3);
    let keys: Vec<&str> = m.entries().iter().map(|(k, _)| k.as_str()).collect();
    assert_eq!(keys, vec!["features", "model", "pk"]);
    assert_eq!(m.get("model").map(String::as_str), Some("J306"));
    assert_eq!(m.get("Model"), None);
    assert_eq!(m.get("absent"), None);
    let d: KeyMap<String> = KeyMap::default();
    assert_eq!(d.len(), 0);
}

#[test]
fn keymap_orders_prefixes_first_and_by_bytes() {
    let mut m: KeyMap<u8> = KeyMap::new();
    m.insert("ab".to_string(), 2);
    m.insert("a".to_string(), 1);
    m.insert("B".to_string(), 0);
    m.insert("b".to_string(), 3);
    let keys: Vec<&str> = m.entries().iter().map(|(k, _)| k.as_str()).collect();
    assert_eq!(keys, vec!["B", "a", "ab", "b"]);
    assert_eq!(m.get("ab"), Some(&2));
}

#[test]
fn byte_comparisons() {
    assert!(matches!(compare_bytes(b"a", b"b"), KeyOrder::Less));
    assert!(matches!(compare_bytes(b"ab", b"a"), KeyOrder::Greater));
    assert!(matches!(compare_bytes(b"abc", b"abc"), KeyOrder::Equal));
    assert!(matches!(compare_bytes(b"", b"a"), KeyOrder::Less));
    assert!(bytes_less(b"Z", b"a"));
    assert!(!bytes_less(b"a", b"a"));
    assert!(bytes_same(b"pk", b"pk"));
    assert!(!bytes_same(b"pk", b"PK"));
}

#[test]
fn text_helpers() {
    assert!(bytes_eq_ignore_ascii_case(b"Content-Length", b"content-LENGTH"));
    assert!(!bytes_eq_ignore_ascii_case(b"Content-Length", b"Content-Lengt"));
    assert!(!bytes_eq_ignore_ascii_case(b"a", b"b"));
    assert!(check_all_digits(b"0123456789"));
    assert!(check_all_digits(b""));
    assert!(!check_all_digits(b"12a"));
    assert!(!check_all_digits(b"+1"));
    assert_eq!(parse_decimal(b"0"), Some(0));
    assert_eq!(parse_decimal(b"007"), Some(7));
    assert_eq!(parse_decimal(b"65536"), Some(65536));
    assert_eq!(parse_decimal(b"99999999999999999999999"), None);
    assert_eq!(text_with_number("n = ", 0), "n = 0");
    assert_eq!(text_with_number("n = ", 18446744073709551615), "n = 18446744073709551615");
    assert_eq!(text_concat("srp: ", "x"), "srp: x");
}

#[test]
fn octet_helpers() {
    let mut out = vec![9u8];
    push_be16(&mut out, 0x8001);
    assert_eq!(out, vec![9, 0x80, 0x01]);
    assert_eq!(copy_range(b"abcdef", 1, 4), b"bcd".to_vec());
    assert_eq!(copy_range(b"abcdef", 3, 3), Vec::<u8>::new());
    assert_eq!(find_byte(b"a:b:c", b':', 0), Some(1));
    assert_eq!(find_byte(b"a:b:c", b':', 2), Some(3));
    assert_eq!(find_byte(b"a:b:c", b':', 4), None);
    assert_eq!(find_byte(b"abc", b':', 9), None);
}
