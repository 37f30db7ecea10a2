use httpframe::bodiless_request;
use httpframe::framing::{bodiless_header, content_length, Request, Verdict};

#[test]
fn test_bodiless_request() {
    assert_eq!(bodiless_request(&"GET / HTTP/1.1".to_owned()), true);
    assert_eq!(
        bodiless_request(&"POST / HTTP/1.1\r\n\r\nBODY".to_owned()),
        false
    );
    assert_eq!(
        bodiless_request(&"PUT / HTTP/1.1\r\nContent-Type: total/funk\r\n\r\nBODY".to_owned()),
        false
    );
}

#[test]
fn bodiless_request_all_methods() {
    for m in ["CONNECT", "GET", "HEAD", "OPTIONS", "TRACE"] {
        let line = format!("{} / HTTP/1.1", m);
        assert!(bodiless_request(&line));
    }
    for m in ["POST", "PUT", "DELETE", "PATCH", "get", "GE"] {
        let line = format!("{} / HTTP/1.1", m);
        assert!(!bodiless_request(&line));
    }
}

#[test]
fn bodiless_header_matches_bytes() {
    assert!(bodiless_header(b"GET / HTTP/1.1"));
    assert!(bodiless_header(b"TRACE / HTTP/1.1"));
    assert!(!bodiless_header(b"POST / HTTP/1.1"));
    assert!(!bodiless_header(b""));
    assert!(!bodiless_header(b"GE"));
}

#[test]
fn empty_framer_is_incomplete() {
    let r = Request::new();
    assert_eq!(r.verdict(), Verdict::Incomplete);
    assert!(!r.body_complete());
    let d = Request::default();
    assert_eq!(d.verdict(), Verdict::Incomplete);
}

#[test]
fn get_request_completes_at_terminator() {
    // Scenario: the bodiless request arrives in one read.
    let msg = "GET / HTTP/1.1\r\nOther: other\r\n\r\n";
    assert_eq!(msg.len(), 32);
    let mut r = Request::new();
    r.update(msg.as_bytes());
    assert_eq!(r.verdict(), Verdict::Complete(32));
    assert!(r.body_complete());
}

#[test]
fn bodiless_ignores_content_length() {
    // A Content-Length header on a bodiless method is ignored: the request
    // completes at the terminator with no body bytes consumed.
    let msg = "GET / HTTP/1.1\r\nContent-Length: 5\r\n\r\n";
    let mut r = Request::new();
    r.update(msg.as_bytes());
    assert_eq!(r.verdict(), Verdict::Complete(msg.len()));
}

#[test]
fn post_needs_announced_body() {
    let msg = "POST / HTTP/1.1\r\nContent-Length: 4\r\n\r\nBODY";
    assert_eq!(msg.len(), 42);
    let bytes = msg.as_bytes();
    // Every proper prefix is incomplete; the whole request is complete.
    for cut in 1..bytes.len() {
        let mut r = Request::new();
        r.update(&bytes[..cut]);
        assert_eq!(r.verdict(), Verdict::Incomplete, "prefix of {} bytes", cut);
    }
    let mut r = Request::new();
    r.update(bytes);
    assert_eq!(r.verdict(), Verdict::Complete(42));
}

#[test]
fn missing_content_length_counts_as_zero() {
    let mut r = Request::new();
    r.update(b"POST / HTTP/1.1\r\nOther: other\r\n\r\n");
    assert_eq!(r.verdict(), Verdict::Complete(33));
}

#[test]
fn malformed_content_length_counts_as_zero() {
    let mut r = Request::new();
    let msg = b"POST / HTTP/1.1\r\nContent-Length: four\r\n\r\n";
    r.update(msg);
    assert_eq!(r.verdict(), Verdict::Complete(msg.len()));
}

#[test]
fn verdict_is_idempotent() {
    let mut r = Request::new();
    r.update(b"POST / HTTP/1.1\r\nContent-Length: 4\r\n\r\n");
    let first = r.verdict();
    assert_eq!(first, Verdict::Incomplete);
    assert_eq!(r.verdict(), first);
    r.update(b"");
    assert_eq!(r.verdict(), first);
    r.update(b"BODY");
    let done = r.verdict();
    assert_eq!(done, Verdict::Complete(42));
    assert_eq!(r.verdict(), done);
    r.update(b"");
    assert_eq!(r.verdict(), done);
}

#[test]
fn chunked_delivery_matches_one_shot() {
    let msg = "POST / HTTP/1.1\r\nContent-Length: 4\r\n\r\nBODY";
    let bytes = msg.as_bytes();
    let mut whole = Request::new();
    whole.update(bytes);
    let expected = whole.verdict();
    for chunk_size in 1..=bytes.len() {
        let mut r = Request::new();
        for chunk in bytes.chunks(chunk_size) {
            r.update(chunk);
        }
        assert_eq!(r.verdict(), expected, "chunk size {}", chunk_size);
    }
}

#[test]
fn terminator_split_across_reads() {
    let mut r = Request::new();
    r.update(b"GET / HTTP/1.1\r");
    assert_eq!(r.verdict(), Verdict::Incomplete);
    r.update(b"\n\r");
    assert_eq!(r.verdict(), Verdict::Incomplete);
    r.update(b"\n");
    assert_eq!(r.verdict(), Verdict::Complete(18));
}

#[test]
fn content_length_header_parsing() {
    assert_eq!(content_length(b"POST / HTTP/1.1\r\nContent-Length: 4"), 4);
    assert_eq!(
        content_length(b"POST / HTTP/1.1\r\nContent-Length:   17  "),
        17
    );
    assert_eq!(content_length(b"POST / HTTP/1.1\r\nContent-Length:0"), 0);
    assert_eq!(content_length(b"Content-Length: 123"), 123);
    // Missing, malformed, empty or oversized values all count as zero.
    assert_eq!(content_length(b"POST / HTTP/1.1"), 0);
    assert_eq!(content_length(b"POST / HTTP/1.1\r\nContent-Length: x9"), 0);
    assert_eq!(content_length(b"POST / HTTP/1.1\r\nContent-Length:"), 0);
    assert_eq!(content_length(b"Content-Length: 12 3"), 0);
    assert_eq!(
        content_length(b"Content-Length: 99999999999999999999999999"),
        0
    );
    // The match is case-sensitive and the first matching line decides.
    assert_eq!(content_length(b"content-length: 4"), 0);
    assert_eq!(
        content_length(b"Content-Length: bad\r\nContent-Length: 4"),
        0
    );
    assert_eq!(content_length(b"Other: 1\r\nContent-Length: 9"), 9);
}

#[test]
fn accumulated_bytes_are_kept_verbatim() {
    let mut r = Request::new();
    r.update(b"POST / HTTP/1.1\r\nContent-Length: 4\r\n\r\n");
    r.update(b"BODY");
    assert_eq!(r.raw, b"POST / HTTP/1.1\r\nContent-Length: 4\r\n\r\nBODY");
}
