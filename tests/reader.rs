use http_framing::reader::parse_content_length;
use http_framing::{HTTPRequest, MalformedKind, ReadError, ReadStep, RequestReader};

fn feed_all(chunks: &[&[u8]]) -> (ReadStep, usize) {
    let mut reader = RequestReader::new();
    for (i, c) in chunks.iter().enumerate() {
        match reader.feed(c) {
            ReadStep::NeedMore => {}
            done => return (done, i),
        }
    }
    (ReadStep::NeedMore, chunks.len())
}

fn request_of(step: ReadStep) -> HTTPRequest {
    match step {
        ReadStep::Done(Ok(r)) => r,
        other => panic!("expected a request, got {:?}", other),
    }
}

#[test]
fn single_chunk_with_content_length_completes() {
    let (step, at) = feed_all(&[b"POST /a HTTP/1.1\r\nContent-Length: 3\r\n\r\nabc"]);
    assert_eq!(at, 0);
    let r = request_of(step);
    assert_eq!(r.method, "POST");
    assert_eq!(&r.body[..], b"abc");
}

#[test]
fn no_content_length_completes_immediately() {
    let (step, at) = feed_all(&[b"GET /x HTTP/1.1\r\nHost: a\r\n\r\n", b"never read"]);
    assert_eq!(at, 0);
    let r = request_of(step);
    assert_eq!(r.path, "/x");
    assert!(r.body.is_empty());
}

#[test]
fn partial_body_waits_for_remaining_bytes() {
    let mut reader = RequestReader::new();
    let s1 = reader.feed(b"POST /u HTTP/1.1\r\nContent-Length: 5\r\n\r\nab");
    assert!(matches!(s1, ReadStep::NeedMore));
    let s2 = reader.feed(b"c");
    assert!(matches!(s2, ReadStep::NeedMore));
    let r = request_of(reader.feed(b"de"));
    assert_eq!(&r.body[..], b"abcde");
}

#[test]
fn chunk_boundaries_give_same_request() {
    let text: &[u8] = b"POST /path HTTP/1.1\r\nHost: h\r\nContent-Length: 4\r\n\r\nwxyz";
    let whole = request_of(feed_all(&[text]).0);
    for split in 1..text.len() {
        let (a, b) = text.split_at(split);
        let r = request_of(feed_all(&[a, b]).0);
        assert_eq!(format!("{:?}", r), format!("{:?}", whole), "split at {}", split);
    }
    let bytes: Vec<&[u8]> = text.chunks(1).collect();
    let r = request_of(feed_all(&bytes).0);
    assert_eq!(format!("{:?}", r), format!("{:?}", whole));
}

#[test]
fn chunk_boundaries_headers_only() {
    let text: &[u8] = b"CONNECT example.com:443 HTTP/1.1\r\nHost: example.com\r\n\r\n";
    let whole = request_of(feed_all(&[text]).0);
    assert!(whole.is_tunnel);
    for split in 1..text.len() {
        let (a, b) = text.split_at(split);
        let r = request_of(feed_all(&[a, b]).0);
        assert_eq!(format!("{:?}", r), format!("{:?}", whole));
    }
}

#[test]
fn malformed_stops_reading() {
    let (step, at) = feed_all(&[b"GET / HTTP/1.1\r\n", b"BadHeaderNoColon\r\n", b"more"]);
    assert_eq!(at, 1);
    assert!(matches!(step, ReadStep::Done(Err(ReadError::Malformed(MalformedKind::HeaderLine)))));
}

#[test]
fn malformed_start_line_stops_reading() {
    let (step, _) = feed_all(&[b"NOT A REQUEST\r\n"]);
    assert!(matches!(step, ReadStep::Done(Err(ReadError::Malformed(MalformedKind::StartLine)))));
}

#[test]
fn invalid_content_length_is_reported() {
    let (step, _) = feed_all(&[b"POST / HTTP/1.1\r\nContent-Length: five\r\n\r\n"]);
    assert!(matches!(step, ReadStep::Done(Err(ReadError::InvalidContentLength))));
    let (step, _) = feed_all(&[b"POST / HTTP/1.1\r\nContent-Length: -1\r\n\r\n"]);
    assert!(matches!(step, ReadStep::Done(Err(ReadError::InvalidContentLength))));
}

#[test]
fn body_longer_than_declared_is_rejected() {
    let (step, _) = feed_all(&[b"POST / HTTP/1.1\r\nContent-Length: 2\r\n\r\nabc"]);
    assert!(matches!(step, ReadStep::Done(Err(ReadError::BodyTooLong))));
}

#[test]
fn end_of_stream_before_body_is_complete() {
    let (step, at) = feed_all(&[b"POST / HTTP/1.1\r\nContent-Length: 4\r\n\r\nab", b""]);
    assert_eq!(at, 1);
    assert!(matches!(step, ReadStep::Done(Err(ReadError::EndOfStream))));
}

#[test]
fn end_of_stream_before_head_is_complete() {
    let (step, _) = feed_all(&[b"GET / HTTP/1.1\r\nHost", b""]);
    assert!(matches!(step, ReadStep::Done(Err(ReadError::EndOfStream))));
    let (step, _) = feed_all(&[b""]);
    assert!(matches!(step, ReadStep::Done(Err(ReadError::EndOfStream))));
}

#[test]
fn zero_content_length() {
    let r = request_of(feed_all(&[b"POST / HTTP/1.1\r\nContent-Length: 0\r\n\r\n"]).0);
    assert!(r.body.is_empty());
}

#[test]
fn content_length_values() {
    assert_eq!(parse_content_length("123"), Some(123));
    assert_eq!(parse_content_length("0"), Some(0));
    assert_eq!(parse_content_length("007"), Some(7));
    assert_eq!(parse_content_length(""), None);
    assert_eq!(parse_content_length("12a"), None);
    assert_eq!(parse_content_length("+5"), None);
    assert_eq!(parse_content_length(" 5"), None);
    assert_eq!(parse_content_length("18446744073709551615"), Some(usize::MAX));
    assert_eq!(parse_content_length("18446744073709551616"), None);
    assert_eq!(parse_content_length("99999999999999999999999"), None);
}
