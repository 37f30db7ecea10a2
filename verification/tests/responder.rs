use httpframe::framing::{Request, Verdict};
use httpframe::response::{render_response, request_is_utf8};

#[test]
fn response_echoes_get_request() {
    // Scenario: a complete GET request is answered by echoing its 32 bytes.
    let msg = "GET / HTTP/1.1\r\nOther: other\r\n\r\n";
    let mut r = Request::new();
    r.update(msg.as_bytes());
    assert_eq!(r.verdict(), Verdict::Complete(32));
    let out = render_response(&r.raw);
    let expect = "HTTP/1.1 200 OK\r\nContent-Type: text/plain\r\nContent-Length: 32\r\n\r\nGET / HTTP/1.1\r\nOther: other\r\n\r\n";
    assert_eq!(out, expect.as_bytes());
}

#[test]
fn response_echoes_post_request() {
    // Scenario: a complete POST request with a body is echoed in full.
    let msg = "POST / HTTP/1.1\r\nContent-Length: 4\r\n\r\nBODY";
    let mut r = Request::new();
    r.update(msg.as_bytes());
    assert_eq!(r.verdict(), Verdict::Complete(42));
    let out = render_response(&r.raw);
    let expect = "HTTP/1.1 200 OK\r\nContent-Type: text/plain\r\nContent-Length: 42\r\n\r\nPOST / HTTP/1.1\r\nContent-Length: 4\r\n\r\nBODY";
    assert_eq!(out, expect.as_bytes());
}

#[test]
fn response_to_empty_body() {
    let out = render_response(&Vec::new());
    assert_eq!(
        out,
        b"HTTP/1.1 200 OK\r\nContent-Type: text/plain\r\nContent-Length: 0\r\n\r\n"
    );
}

#[test]
fn response_length_needs_many_digits() {
    let body: Vec<u8> = vec![b'a'; 1234];
    let out = render_response(&body);
    let expect_head = b"HTTP/1.1 200 OK\r\nContent-Type: text/plain\r\nContent-Length: 1234\r\n\r\n";
    assert_eq!(&out[..expect_head.len()], expect_head);
    assert_eq!(&out[expect_head.len()..], &body[..]);
}

#[test]
fn utf8_gate_on_accumulated_bytes() {
    assert!(request_is_utf8(&b"GET / HTTP/1.1\r\n\r\n".to_vec()));
    assert!(request_is_utf8(&Vec::new()));
    assert!(!request_is_utf8(&vec![0xff, 0xfe]));
    assert!(!request_is_utf8(&vec![b'a', 0x80]));
}
