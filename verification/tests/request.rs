//! Requests: heads, bodies, and framing.

use localhost::http::request::{
    decode_body, decode_chunked, hex_val, parse_head, percent_decode, BodyMode, BodyStatus,
    HeadStatus, RequestHead, MAX_HEAD_BYTES,
};

fn head_ok(buf: &[u8]) -> RequestHead {
    match parse_head(buf) {
        HeadStatus::Complete(h) => h,
        HeadStatus::NeedMore => panic!("needed more"),
        HeadStatus::Bad(c) => panic!("bad: {c}"),
    }
}

#[test]
fn parses_request_line_and_headers() {
    let h = head_ok(b"GET /a/b?x=1&y=2 HTTP/1.1\r\nHost: example.com\r\nAccept: */*\r\n\r\n");
    assert_eq!(h.method, "GET");
    assert_eq!(h.path, "/a/b");
    assert_eq!(h.query, "x=1&y=2");
    assert_eq!(h.version, "HTTP/1.1");
    assert_eq!(h.host(), Some("example.com"));
    assert_eq!(h.headers.get("accept").map(String::as_str), Some("*/*"));
}

#[test]
fn percent_decodes_path() {
    let h = head_ok(b"GET /a%20b%2Fc HTTP/1.1\r\nHost: x\r\n\r\n");
    assert_eq!(h.path, "/a b/c");
}

#[test]
fn need_more_until_headers_complete() {
    assert!(matches!(parse_head(b"GET / HTTP/1.1\r\nHost: x"), HeadStatus::NeedMore));
}

#[test]
fn malformed_request_line_is_400() {
    assert!(matches!(parse_head(b"GET /\r\n\r\n"), HeadStatus::Bad(400)));
    assert!(matches!(parse_head(b"JUST GARBAGE LINE HERE\r\n\r\n"), HeadStatus::Bad(400)));
}

#[test]
fn content_length_body() {
    let h = head_ok(b"POST / HTTP/1.1\r\nHost: x\r\nContent-Length: 5\r\n\r\nhello");
    let mode = h.body_mode().unwrap();
    assert!(matches!(mode, BodyMode::Length(5)));
    let body = &b"POST / HTTP/1.1\r\nHost: x\r\nContent-Length: 5\r\n\r\nhello"[h.head_len..];
    match decode_body(body, &mode, 1024) {
        BodyStatus::Complete { body, consumed } => {
            assert_eq!(body, b"hello");
            assert_eq!(consumed, 5);
        }
        _ => panic!("expected complete body"),
    }
}

#[test]
fn content_length_needs_more() {
    let mode = BodyMode::Length(5);
    assert!(matches!(decode_body(b"hel", &mode, 1024), BodyStatus::NeedMore));
}

#[test]
fn content_length_too_large() {
    let mode = BodyMode::Length(2000);
    assert!(matches!(decode_body(b"", &mode, 1024), BodyStatus::TooLarge));
}

#[test]
fn chunked_body_decodes() {
    // "Wikipedia in\r\n\r\nchunks." style
    let raw = b"4\r\nWiki\r\n5\r\npedia\r\n0\r\n\r\n";
    match decode_body(raw, &BodyMode::Chunked, 1024) {
        BodyStatus::Complete { body, consumed } => {
            assert_eq!(body, b"Wikipedia");
            assert_eq!(consumed, raw.len());
        }
        _ => panic!("expected complete chunked body"),
    }
}

#[test]
fn chunked_needs_more() {
    let raw = b"4\r\nWi"; // incomplete chunk data
    assert!(matches!(decode_body(raw, &BodyMode::Chunked, 1024), BodyStatus::NeedMore));
}

#[test]
fn chunked_too_large() {
    let raw = b"5\r\nhello\r\n0\r\n\r\n";
    assert!(matches!(decode_body(raw, &BodyMode::Chunked, 3), BodyStatus::TooLarge));
}

#[test]
fn chunked_with_extension_is_ignored() {
    let raw = b"4;foo=bar\r\nWiki\r\n0\r\n\r\n";
    match decode_body(raw, &BodyMode::Chunked, 1024) {
        BodyStatus::Complete { body, .. } => assert_eq!(body, b"Wiki"),
        _ => panic!("expected complete body"),
    }
}

#[test]
fn transfer_encoding_takes_precedence() {
    let h = head_ok(b"POST / HTTP/1.1\r\nHost: x\r\nTransfer-Encoding: chunked\r\nContent-Length: 9\r\n\r\n");
    assert!(matches!(h.body_mode().unwrap(), BodyMode::Chunked));
}

#[test]
fn framings_that_are_refused() {
    let gzip = head_ok(b"POST / HTTP/1.1\r\nHost: x\r\nTransfer-Encoding: gzip\r\n\r\n");
    assert!(matches!(gzip.body_mode(), Err(400)));
    let length = head_ok(b"POST / HTTP/1.1\r\nHost: x\r\nContent-Length: 5x\r\n\r\n");
    assert!(matches!(length.body_mode(), Err(400)));
    let none = head_ok(b"POST / HTTP/1.1\r\nHost: x\r\nContent-Length: 0\r\n\r\n");
    assert!(matches!(none.body_mode(), Ok(BodyMode::Empty)));
    let listed = head_ok(b"POST / HTTP/1.1\r\nHost: x\r\nTransfer-Encoding: gzip, Chunked\r\n\r\n");
    assert!(matches!(listed.body_mode(), Ok(BodyMode::Chunked)));
}

#[test]
fn heads_without_end_are_refused_beyond_the_limit() {
    let small = vec![b'a'; MAX_HEAD_BYTES];
    assert!(matches!(parse_head(&small), HeadStatus::NeedMore));
    let large = vec![b'a'; MAX_HEAD_BYTES + 1];
    assert!(matches!(parse_head(&large), HeadStatus::Bad(400)));
}

/// A request whose line and headers have `n` bytes before the blank line.
fn request_of(n: usize) -> Vec<u8> {
    let mut buf = b"GET / HTTP/1.1\r\nX: ".to_vec();
    buf.resize(n, b'a');
    buf.extend_from_slice(b"\r\n\r\n");
    buf
}

#[test]
fn long_heads_are_refused_though_they_end() {
    assert_eq!(head_ok(&request_of(MAX_HEAD_BYTES)).head_len, MAX_HEAD_BYTES + 4);
    assert!(matches!(parse_head(&request_of(MAX_HEAD_BYTES + 1)), HeadStatus::Bad(400)));
    assert!(matches!(parse_head(&request_of(2 * MAX_HEAD_BYTES)), HeadStatus::Bad(400)));
    // What follows the blank line is not counted.
    let mut buf = request_of(30);
    buf.resize(2 * MAX_HEAD_BYTES, b'b');
    assert_eq!(head_ok(&buf).head_len, 34);
}

#[test]
fn heads_that_are_no_text_are_refused() {
    assert!(matches!(parse_head(b"GET /\xff HTTP/1.1\r\nHost: x\r\n\r\n"), HeadStatus::Bad(400)));
}

#[test]
fn later_bytes_change_nothing() {
    let head = b"GET / HTTP/1.1\r\nHost: x\r\n\r\n".to_vec();
    let mut longer = head.clone();
    longer.extend_from_slice(b"GET /next HTTP/1.1\r\n\r\n");
    assert_eq!(head_ok(&head).head_len, head_ok(&longer).head_len);
    assert_eq!(head_ok(&longer).path, "/");
    match decode_body(b"3\r\nabc\r\n0\r\n\r\nGET ", &BodyMode::Chunked, 10) {
        BodyStatus::Complete { body, consumed } => {
            assert_eq!(body, b"abc");
            assert_eq!(consumed, 13);
        }
        _ => panic!("expected complete body"),
    }
}

#[test]
fn chunks_that_are_refused() {
    assert!(matches!(decode_chunked(b"zz\r\nabc\r\n0\r\n\r\n", 10), BodyStatus::Bad(400)));
    assert!(matches!(decode_chunked(b"3\r\nabcXX0\r\n\r\n", 10), BodyStatus::Bad(400)));
    assert!(matches!(decode_chunked(b"\xff\r\n", 10), BodyStatus::Bad(400)));
    assert!(matches!(decode_chunked(b"ffffffffffffffff\r\nabc", 10), BodyStatus::TooLarge));
}

#[test]
fn chunks_over_the_limit_are_refused_by_their_size_line() {
    let limited = |buf: &[u8]| decode_body(buf, &BodyMode::Chunked, 3);
    assert!(matches!(limited(b"5\r\nhe"), BodyStatus::TooLarge));
    assert!(matches!(limited(b"4\r\n"), BodyStatus::TooLarge));
    assert!(matches!(limited(b"2\r\nab\r\n2\r\n"), BodyStatus::TooLarge));
    // Up to the limit there is something to wait for.
    assert!(matches!(limited(b"4\r"), BodyStatus::NeedMore));
    assert!(matches!(limited(b"3\r\nab"), BodyStatus::NeedMore));
    assert!(matches!(limited(b"2\r\nab\r\n1\r\n"), BodyStatus::NeedMore));
    assert!(matches!(decode_chunked(b"ffffffffffffffff\r\nab\r\n", 1024), BodyStatus::TooLarge));
    assert!(matches!(decode_chunked(b"1\r\na\r\nffffffffffffffff\r\n", usize::MAX), BodyStatus::TooLarge));
}

#[test]
fn trailers_are_skipped() {
    match decode_chunked(b"1\r\na\r\n0\r\nX: y\r\nZ: w\r\n\r\nrest", 10) {
        BodyStatus::Complete { body, consumed } => {
            assert_eq!(body, b"a");
            assert_eq!(consumed, 23);
        }
        _ => panic!("expected complete body"),
    }
}

#[test]
fn percent_escapes() {
    assert_eq!(percent_decode("/%41%7a%2"), "/Az%2");
    assert_eq!(percent_decode("100%zz"), "100%zz");
    assert_eq!(percent_decode("%C3%A9"), "é");
    // Bytes that are no text become replacement characters.
    assert_eq!(percent_decode("%ff"), "\u{fffd}");
    assert_eq!(hex_val(b'f'), Some(15));
    assert_eq!(hex_val(b'G'), None);
}

#[test]
fn sizes_over_the_limit_are_refused_before_the_body() {
    assert!(matches!(decode_body(b"", &BodyMode::Length(1025), 1024), BodyStatus::TooLarge));
    assert!(matches!(decode_body(b"", &BodyMode::Length(1024), 1024), BodyStatus::NeedMore));
}

#[test]
fn heads_are_read_as_they_are_written() {
    let h = head_ok("M\u{e9} /p?a?b HTTP/x\r\nA: 1\r\nX-\u{e9}:  v \u{e9} \r\na:2\r\n\r\nrest".as_bytes());
    assert_eq!((h.method.as_str(), h.path.as_str(), h.query.as_str()), ("M\u{e9}", "/p", "a?b"));
    assert_eq!(h.version, "HTTP/x");
    assert_eq!(h.headers.get("a").map(String::as_str), Some("2"));
    assert_eq!(h.headers.get("x-\u{e9}").map(String::as_str), Some("v \u{e9}"));
    assert_eq!(h.host(), None);
    assert_eq!(h.head_len, 46);
}

#[test]
fn fields_that_are_refused() {
    for line in ["nocolon", ": empty", "a b: c", "a\tb: c"] {
        let raw = format!("GET / HTTP/1.1\r\n{line}\r\n\r\n");
        assert!(matches!(parse_head(raw.as_bytes()), HeadStatus::Bad(400)), "{line}");
    }
    assert!(matches!(parse_head(b"GET / FTP/1\r\n\r\n"), HeadStatus::Bad(400)));
    assert!(matches!(parse_head(b"GET  / HTTP/1.1\r\n\r\n"), HeadStatus::Bad(400)));
}
