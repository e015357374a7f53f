use steam_accelerator::head::{
    begins_with, find_bytes, find_subslice, HeadReader, HeadStatus, HEADERS_TOO_LARGE, HEAD_LIMIT,
};
use steam_accelerator::text::{
    chars_of, find_text, nth_word, parse_u16, split_lines, strip_prefix, text_of, trim, white_space,
};

#[test]
fn parts_of_byte_strings_are_found() {
    assert_eq!(find_bytes(b"abcabc", b"bc"), Some(1));
    assert_eq!(find_bytes(b"abc", b"abcd"), None);
    assert!(find_subslice(b"ab\r\n\r\ncd", b"\r\n\r\n"));
    assert!(!find_subslice(b"ab\r\n\rcd", b"\r\n\r\n"));
    assert!(!find_subslice(b"", b"x"));
    assert!(begins_with(b"CONNECT a", b"CONNECT"));
    assert!(!begins_with(b"CON", b"CONNECT"));
}

#[test]
fn a_head_ends_at_the_empty_line() {
    let mut reader = HeadReader::new();
    assert!(matches!(reader.feed(b"GET / HTTP/1.1\r\n\r"), HeadStatus::More));
    assert!(matches!(reader.feed(b"\nrest"), HeadStatus::Complete));
    assert_eq!(reader.buf, b"GET / HTTP/1.1\r\n\r\nrest".to_vec());
}

#[test]
fn a_head_ends_with_the_connection() {
    let mut reader = HeadReader::new();
    assert!(matches!(reader.feed(b"GET"), HeadStatus::More));
    assert!(matches!(reader.feed(b""), HeadStatus::Complete));
    assert_eq!(reader.buf, b"GET".to_vec());
}

#[test]
fn long_heads_are_refused() {
    let mut reader = HeadReader::new();
    assert!(matches!(reader.feed(&vec![120u8; HEAD_LIMIT]), HeadStatus::More));
    assert!(matches!(reader.feed(b"x"), HeadStatus::TooLarge));
    assert_eq!(HEADERS_TOO_LARGE, "headers too large");
}

#[test]
fn a_long_head_that_is_complete_is_taken() {
    let mut reader = HeadReader::new();
    let mut bytes = vec![120u8; HEAD_LIMIT];
    bytes.extend_from_slice(b"\r\n\r\n");
    assert!(matches!(reader.feed(&bytes), HeadStatus::Complete));
}

#[test]
fn the_shortest_run_of_chunks_is_read() {
    let chunks: [&[u8]; 4] = [b"GET / H", b"TTP/1.1\r\n", b"\r\nbody", b"never read"];
    let mut reader = HeadReader::new();
    let mut read = 0;
    for chunk in chunks {
        read += 1;
        if !matches!(reader.feed(chunk), HeadStatus::More) {
            break;
        }
    }
    assert_eq!(read, 3);
    assert_eq!(reader.buf, b"GET / HTTP/1.1\r\n\r\nbody".to_vec());
}

#[test]
fn pieces_do_not_matter() {
    let mut whole = HeadReader::new();
    let mut pieces = HeadReader::new();
    assert!(matches!(whole.feed(b"a\r\n\r\n"), HeadStatus::Complete));
    assert!(matches!(pieces.feed(b"a\r\n"), HeadStatus::More));
    assert!(matches!(pieces.feed(b"\r\n"), HeadStatus::Complete));
    assert_eq!(whole.buf, pieces.buf);
}

#[test]
fn words_are_split_at_white_space() {
    let cs = chars_of(" GET\t/a\u{3000}HTTP/1.1\r\n");
    assert_eq!(nth_word(&cs, 0).map(text_of), Some("GET".to_string()));
    assert_eq!(nth_word(&cs, 1).map(text_of), Some("/a".to_string()));
    assert_eq!(nth_word(&cs, 2).map(text_of), Some("HTTP/1.1".to_string()));
    assert!(nth_word(&cs, 3).is_none());
}

#[test]
fn white_space_is_what_unicode_says() {
    for c in '\0'..=char::MAX {
        assert_eq!(white_space(c), c.is_whitespace());
    }
}

#[test]
fn lines_end_with_both_bytes() {
    let cs = chars_of("a\r\nb\nc\r\n");
    assert_eq!(split_lines(&cs), vec!["a".to_string(), "b\nc".to_string(), String::new()]);
    assert_eq!(split_lines(&[]), vec![String::new()]);
}

#[test]
fn numbers_are_read_as_ports() {
    assert_eq!(parse_u16(&chars_of("443")), Some(443));
    assert_eq!(parse_u16(&chars_of("+0")), Some(0));
    assert_eq!(parse_u16(&chars_of("00000065535")), Some(65535));
    assert_eq!(parse_u16(&chars_of("65536")), None);
    assert_eq!(parse_u16(&chars_of("")), None);
    assert_eq!(parse_u16(&chars_of("+")), None);
    assert_eq!(parse_u16(&chars_of("8 ")), None);
    assert_eq!(parse_u16(&chars_of("\u{663}")), None);
}

#[test]
fn texts_are_trimmed_and_searched() {
    assert_eq!(text_of(trim(&chars_of("\t a b \r\n"))), "a b");
    assert_eq!(text_of(trim(&chars_of("  "))), "");
    assert_eq!(find_text(&chars_of("steam++"), &chars_of("+")), Some(5));
    assert_eq!(find_text(&chars_of("a"), &chars_of("")), Some(0));
    assert_eq!(strip_prefix(&chars_of("http://x"), "http://").map(text_of), Some("x".to_string()));
    assert!(strip_prefix(&chars_of("ftp://x"), "http://").is_none());
}
