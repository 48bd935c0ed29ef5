use utf8_utils::bytes::UTF8Utils;
use utf8_utils::parser::UTF8Parser;

#[test]
fn crlf_lines_round_trip() {
    let mut p = UTF8Parser::new(b"A\r\nBB\r\n");
    let lines = p.take_crlf();
    assert_eq!(lines, vec![b"A".to_vec(), b"BB".to_vec()]);
    assert_eq!(p.to_vec(), Vec::<u8>::new());
}

#[test]
fn crlf_string_lines_round_trip() {
    let mut p = UTF8Parser::new(b"A\r\nBB\r\n");
    let lines = p.take_crlf_strings();
    assert_eq!(lines, vec!["A".to_string(), "BB".to_string()]);
}

#[test]
fn lone_cr_stays_content() {
    let mut p = UTF8Parser::new(b"A\rB\r\n");
    let mut buf: Vec<u8> = Vec::new();
    let n = p.read_to_crlf(&mut buf);
    assert_eq!(n, 3);
    assert_eq!(buf, b"A\rB".to_vec());
}

#[test]
fn read_to_null_consumes_the_whole_remainder() {
    let mut p = UTF8Parser::new(b"foo\x00bar");
    let mut buf: Vec<u8> = Vec::new();
    let n = p.read_to_null(&mut buf);
    assert_eq!(n, 6);
    assert_eq!(buf, b"foobar".to_vec());
}

#[test]
fn take_hex_stops_at_the_first_non_digit() {
    let mut p = UTF8Parser::new(b"1a2Zx");
    let hex = p.take_hex();
    assert_eq!(hex, b"1a2".to_vec());
    assert_eq!(p.to_vec(), b"Zx".to_vec());
}

#[test]
fn exhausted_parser_reads_stay_empty() {
    let mut p = UTF8Parser::new(b"x");
    let mut buf: Vec<u8> = Vec::new();
    assert_eq!(p.read_to_null(&mut buf), 1);
    let mut again: Vec<u8> = Vec::new();
    assert_eq!(p.read_to_crlf(&mut again), 0);
    assert_eq!(p.read_to_char(&b'x', &mut again), 0);
    assert_eq!(p.read_to_space(&mut again), 0);
    assert_eq!(p.read_to_lf(&mut again), 0);
    assert_eq!(p.take_hex(), Vec::<u8>::new());
    assert_eq!(p.take_crlf(), Vec::<Vec<u8>>::new());
    assert!(again.is_empty());
    assert_eq!(p.to_vec(), Vec::<u8>::new());
}

#[test]
fn read_to_char_discards_the_delimiter() {
    let mut p = UTF8Parser::new(b"key=value");
    let mut buf: Vec<u8> = Vec::new();
    let n = p.read_to_char(&b'=', &mut buf);
    assert_eq!(n, 3);
    assert_eq!(buf, b"key".to_vec());
    assert_eq!(p.to_vec(), b"value".to_vec());
}

#[test]
fn read_to_char_without_delimiter_drains_all() {
    let mut p = UTF8Parser::new(b"abc");
    let mut buf: Vec<u8> = Vec::new();
    let n = p.read_to_char(&b'|', &mut buf);
    assert_eq!(n, 3);
    assert_eq!(buf, b"abc".to_vec());
}

#[test]
fn read_to_space_splits_fields() {
    let mut p = UTF8Parser::new(b"GET /index");
    let mut buf: Vec<u8> = Vec::new();
    assert_eq!(p.read_to_space(&mut buf), 3);
    assert_eq!(buf, b"GET".to_vec());
    assert_eq!(p.to_vec(), b"/index".to_vec());
}

#[test]
fn read_to_lf_splits_on_bare_newline() {
    let mut p = UTF8Parser::new(b"one\ntwo");
    let mut buf: Vec<u8> = Vec::new();
    assert_eq!(p.read_to_lf(&mut buf), 3);
    assert_eq!(buf, b"one".to_vec());
    assert_eq!(p.to_vec(), b"two".to_vec());
}

#[test]
fn skip_chars_discards_the_leading_run() {
    let mut p = UTF8Parser::new(b"   indented");
    p.skip_chars(b" ");
    assert_eq!(p.to_vec(), b"indented".to_vec());
    let mut q = UTF8Parser::new(b"abcabcx");
    q.skip_chars(b"cba");
    assert_eq!(q.to_vec(), b"x".to_vec());
}

#[test]
fn skip_to_crlf_drops_one_line() {
    let mut p = UTF8Parser::new(b"skip me\r\nkeep");
    p.skip_to_crlf();
    assert_eq!(p.to_vec(), b"keep".to_vec());
    let mut q = UTF8Parser::new(b"no terminator");
    q.skip_to_crlf();
    assert_eq!(q.to_vec(), Vec::<u8>::new());
}

#[test]
fn empty_line_stops_collection_without_emitting_it() {
    let mut p = UTF8Parser::new(b"A\r\n\r\nB\r\n");
    let lines = p.take_crlf();
    assert_eq!(lines, vec![b"A".to_vec()]);
    assert_eq!(p.to_vec(), b"B\r\n".to_vec());
}

#[test]
fn unterminated_tail_is_one_final_line() {
    let mut p = UTF8Parser::new(b"A\r\nB");
    let lines = p.take_crlf();
    assert_eq!(lines, vec![b"A".to_vec(), b"B".to_vec()]);
}

#[test]
fn construction_strips_nul_before_scanning() {
    let mut p = UTF8Parser::new(b"a\x00b\r\nc\x00");
    let mut buf: Vec<u8> = Vec::new();
    assert_eq!(p.read_to_crlf(&mut buf), 2);
    assert_eq!(buf, b"ab".to_vec());
    assert_eq!(p.to_vec(), b"c".to_vec());
}

#[test]
fn into_utf8_parser_reaches_the_same_state() {
    let v: Vec<u8> = b"one\x00 two".to_vec();
    let p = v.into_utf8_parser();
    assert_eq!(p.to_vec(), b"one two".to_vec());
    let q = b"by ref".as_slice().into_utf8_parser();
    assert_eq!(q.to_vec(), b"by ref".to_vec());
}
