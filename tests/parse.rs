use bytes::Bytes;
use http_framing::{HTTPRequest, MalformedKind, ParseOutcome};

fn parse(text: &[u8]) -> ParseOutcome {
    HTTPRequest::parse_message(&Bytes::copy_from_slice(text))
}

fn complete(text: &[u8]) -> HTTPRequest {
    match parse(text) {
        ParseOutcome::Complete(r) => r,
        other => panic!("expected a request, got {:?}", other),
    }
}

#[test]
fn post_with_body_fields_match_literal_input() {
    let r = complete(b"POST /submit HTTP/1.1\r\nHost: example.com\r\nContent-Length: 5\r\n\r\nhello");
    assert_eq!(r.method, "POST");
    assert_eq!(r.path, "/submit");
    assert_eq!(r.protocol, "HTTP/1.1");
    assert_eq!(
        r.headers,
        vec![
            ("Host".to_string(), "example.com".to_string()),
            ("Content-Length".to_string(), "5".to_string())
        ]
    );
    assert_eq!(&r.body[..], b"hello");
    assert!(!r.is_tunnel);
}

#[test]
fn get_without_headers() {
    let r = complete(b"GET /index.html HTTP/1.1\r\n\r\n");
    assert_eq!(r.method, "GET");
    assert_eq!(r.path, "/index.html");
    assert!(r.headers.is_empty());
    assert!(r.body.is_empty());
}

#[test]
fn connect_is_a_tunnel() {
    let r = complete(b"CONNECT example.com:443 HTTP/1.1\r\n\r\n");
    assert!(r.is_tunnel);
    assert_eq!(r.method, "CONNECT");
    assert_eq!(r.path, "example.com:443");
    assert_eq!(r.protocol, "HTTP/1.1");
    assert!(r.headers.is_empty());
    assert!(r.body.is_empty());
}

#[test]
fn connect_with_other_protocol_token() {
    let r = complete(b"CONNECT example.com:443 HTTP/1.0\r\n\r\n");
    assert!(r.is_tunnel);
    assert_eq!(r.protocol, "HTTP/1.0");
}

#[test]
fn header_without_separator_is_malformed() {
    let out = parse(b"GET /x HTTP/1.1\r\nHost: a\r\nBadHeaderNoColon\r\n\r\n");
    assert!(matches!(out, ParseOutcome::Malformed(MalformedKind::HeaderLine)));
}

#[test]
fn header_without_separator_is_malformed_before_head_ends() {
    let out = parse(b"GET /x HTTP/1.1\r\nBadHeaderNoColon\r\n");
    assert!(matches!(out, ParseOutcome::Malformed(MalformedKind::HeaderLine)));
}

#[test]
fn unrecognised_start_line_is_malformed() {
    let out = parse(b"HELLO there\r\n\r\n");
    assert!(matches!(out, ParseOutcome::Malformed(MalformedKind::StartLine)));
}

#[test]
fn empty_start_line_is_malformed() {
    let out = parse(b"\r\nGET / HTTP/1.1\r\n\r\n");
    assert!(matches!(out, ParseOutcome::Malformed(MalformedKind::StartLine)));
}

#[test]
fn start_line_with_extra_space_is_malformed() {
    assert!(matches!(
        parse(b"GET  /x HTTP/1.1\r\n\r\n"),
        ParseOutcome::Malformed(MalformedKind::StartLine)
    ));
    assert!(matches!(
        parse(b"GET /x y HTTP/1.1\r\n\r\n"),
        ParseOutcome::Malformed(MalformedKind::StartLine)
    ));
    assert!(matches!(
        parse(b"GET/x HTTP/1.1\r\n\r\n"),
        ParseOutcome::Malformed(MalformedKind::StartLine)
    ));
}

#[test]
fn invalid_utf8_is_malformed() {
    let out = parse(b"GET /\xff HTTP/1.1\r\n\r\n");
    assert!(matches!(out, ParseOutcome::Malformed(MalformedKind::Utf8)));
    let out = parse(b"GET / HTTP/1.1\r\nX: \xc3\x28\r\n\r\n");
    assert!(matches!(out, ParseOutcome::Malformed(MalformedKind::Utf8)));
}

#[test]
fn non_ascii_utf8_is_decoded() {
    let r = complete("GET /caf\u{e9} HTTP/1.1\r\nX: \u{2713}\r\n\r\n".as_bytes());
    assert_eq!(r.path, "/caf\u{e9}");
    assert_eq!(r.get_header_value("X"), Some("\u{2713}"));
}

#[test]
fn incomplete_inputs() {
    assert!(matches!(parse(b""), ParseOutcome::Incomplete));
    assert!(matches!(parse(b"GET / HTTP/1.1"), ParseOutcome::Incomplete));
    assert!(matches!(parse(b"GET / HTTP/1.1\r"), ParseOutcome::Incomplete));
    assert!(matches!(parse(b"GET / HTTP/1.1\r\nHost: a"), ParseOutcome::Incomplete));
    assert!(matches!(parse(b"GET / HTTP/1.1\r\nHost: a\r\n"), ParseOutcome::Incomplete));
    assert!(matches!(parse(b"GET / HTTP/1.1\r\nHost: a\r\n\r"), ParseOutcome::Incomplete));
}

#[test]
fn body_keeps_line_breaks() {
    let r = complete(b"POST / HTTP/1.1\r\n\r\na\r\n\r\nb");
    assert_eq!(&r.body[..], b"a\r\n\r\nb");
}

#[test]
fn header_value_may_hold_separator() {
    let r = complete(b"GET / HTTP/1.1\r\nA: b: c\r\n: empty\r\n\r\n");
    assert_eq!(
        r.headers,
        vec![
            ("A".to_string(), "b: c".to_string()),
            ("".to_string(), "empty".to_string())
        ]
    );
}

#[test]
fn lookup_returns_first_match() {
    let r = complete(b"GET / HTTP/1.1\r\nA: 1\r\nA: 2\r\n\r\n");
    assert_eq!(r.get_header_value("A"), Some("1"));
    assert_eq!(r.get_header_value("B"), None);
    assert_eq!(r.get_header_value("a"), None);
}

#[test]
fn lookup_on_constructed_request() {
    let r = HTTPRequest {
        method: "GET".to_string(),
        path: "/".to_string(),
        protocol: "HTTP/1.1".to_string(),
        headers: vec![("A".to_string(), "1".to_string()), ("A".to_string(), "2".to_string())],
        body: Bytes::new(),
        is_tunnel: false,
    };
    assert_eq!(r.get_header_value("A"), Some("1"));
}

#[test]
fn parsing_twice_gives_same_result() {
    let buf = Bytes::copy_from_slice(b"POST /p HTTP/1.1\r\nA: 1\r\n\r\nxyz");
    let a = HTTPRequest::parse_message(&buf);
    let b = HTTPRequest::parse_message(&buf);
    assert_eq!(format!("{:?}", a), format!("{:?}", b));
    for bad in [&b"GET / HTTP/1.1\r\nBad\r\n"[..], &b"GET / HTTP/1.1\r\n"[..]] {
        let buf = Bytes::copy_from_slice(bad);
        let a = HTTPRequest::parse_message(&buf);
        let b = HTTPRequest::parse_message(&buf);
        assert_eq!(format!("{:?}", a), format!("{:?}", b));
    }
}
