use utf8_utils::bytes::contains_byte;
use utf8_utils::bytes::ends_with;
use utf8_utils::bytes::is_hex_bytes;
use utf8_utils::bytes::lower_bytes;
use utf8_utils::bytes::strip_nul_bytes;
use utf8_utils::bytes::trim_chars_bytes;
use utf8_utils::bytes::trim_crlf_bytes;
use utf8_utils::bytes::UTF8Utils;
use utf8_utils::decode::DecodeError;

#[test]
fn strip_null_removes_every_nul_anywhere() {
    let v: Vec<u8> = b"\x00a\x00b c\x00".to_vec();
    assert_eq!(v.strip_null(), b"ab c".to_vec());
    assert_eq!(strip_nul_bytes(b"foo\x00bar"), b"foobar".to_vec());
    assert_eq!(strip_nul_bytes(b"\x00\x00"), Vec::<u8>::new());
    assert_eq!(strip_nul_bytes(b"plain"), b"plain".to_vec());
}

#[test]
fn is_hex_accepts_exactly_the_hex_alphabet() {
    assert!(b"0123456789abcdefABCDEF".as_slice().is_hex());
    assert!(b"".as_slice().is_hex());
    assert!(!b"1a2Zx".as_slice().is_hex());
    assert!(!b"g".as_slice().is_hex());
    assert!(!is_hex_bytes(b"0x1f"));
    let v: Vec<u8> = b"DEADbeef".to_vec();
    assert!(v.is_hex());
}

#[test]
fn lowercasing_moves_only_ascii_uppercase() {
    let v: Vec<u8> = b"MiXeD 123 \xC3\x84!".to_vec();
    assert_eq!(v.as_lower(), b"mixed 123 \xC3\x84!".to_vec());
    assert_eq!(v.to_lower(), b"mixed 123 \xC3\x84!".to_vec());
    assert_eq!(lower_bytes(b"AZ"), vec![b'a', b'z']);
    assert_eq!(lower_bytes(b"@["), b"@[".to_vec());
}

#[test]
fn trim_crlf_strips_all_trailing_pairs() {
    let v: Vec<u8> = b"data\r\n\r\n\r\n".to_vec();
    assert_eq!(v.trim_crlf(), b"data".to_vec());
    assert_eq!(trim_crlf_bytes(b"a\r\nb\r\n".to_vec()), b"a\r\nb".to_vec());
    assert_eq!(trim_crlf_bytes(b"\r\n".to_vec()), Vec::<u8>::new());
    assert_eq!(trim_crlf_bytes(b"lone\r".to_vec()), b"lone\r".to_vec());
}

#[test]
fn trim_crlf_applied_twice_is_applied_once() {
    let once = trim_crlf_bytes(b"x\r\n\r\n".to_vec());
    let twice = trim_crlf_bytes(once.clone());
    assert_eq!(once, twice);
    assert!(!once.ends_with(b"\r\n"));
}

#[test]
fn trim_chars_strips_one_trailing_occurrence_only() {
    let v: Vec<u8> = b"path///".to_vec();
    assert_eq!(v.trim_chars(b"/"), b"path//".to_vec());
    assert_eq!(trim_chars_bytes(b"a: b: ".to_vec(), b": "), b"a: b".to_vec());
    assert_eq!(trim_chars_bytes(b"abab".to_vec(), b"ab"), b"ab".to_vec());
    assert_eq!(trim_chars_bytes(b"abc".to_vec(), b"xyz"), b"abc".to_vec());
    assert_eq!(trim_chars_bytes(b"abc".to_vec(), b""), b"abc".to_vec());
}

#[test]
fn strict_decode_succeeds_on_valid_utf8_alone() {
    let v: Vec<u8> = b"hi there".to_vec();
    assert_eq!(v.as_utf8().unwrap(), "hi there".to_string());
    let bad: Vec<u8> = vec![0x66, 0x6f, 0xff];
    assert_eq!(bad.as_utf8().unwrap_err(), DecodeError::InvalidEncoding);
    let empty: Vec<u8> = Vec::new();
    assert_eq!(empty.as_utf8().unwrap(), String::new());
    let multi: Vec<u8> = "höhe".as_bytes().to_vec();
    assert_eq!(multi.as_utf8().unwrap(), "höhe".to_string());
}

#[test]
fn lossy_decode_replaces_invalid_sequences() {
    let bad: Vec<u8> = vec![0x66, 0x6f, 0xff, 0x6f];
    assert_eq!(bad.as_utf8_lossy(), "fo\u{FFFD}o".to_string());
    let good: Vec<u8> = b"plain".to_vec();
    assert_eq!(good.as_utf8_lossy(), "plain".to_string());
    assert_eq!(b"".as_slice().as_utf8_lossy(), String::new());
}

#[test]
fn ends_with_checks_the_exact_suffix() {
    assert!(ends_with(b"header: value", b"value"));
    assert!(!ends_with(b"value", b"header: value"));
    assert!(ends_with(b"x", b""));
    assert!(!ends_with(b"abc", b"ab"));
}

#[test]
fn contains_byte_finds_members_only() {
    assert!(contains_byte(b"abc", b'b'));
    assert!(!contains_byte(b"abc", b'z'));
    assert!(!contains_byte(b"", b'a'));
}
