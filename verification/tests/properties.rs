use drogue_http_client::{
    ByteBuffer, BufferResponseHandler, HttpConnection, RequestError,
};

type Handler = BufferResponseHandler<1024, 128>;

fn run_fragments(
    push: &[&[u8]],
    close: bool,
) -> (Option<RequestError>, bool, Handler) {
    let mut sink = ByteBuffer::<1024>::new();
    let con = HttpConnection::<1024>::new();
    let mut req = con
        .begin("GET", "/x")
        .handler(Handler::new())
        .execute::<_, 256>(&mut sink);
    for p in push {
        req.push_data(p);
    }
    if close {
        req.push_close();
    }
    let failure = req.failure();
    let done = req.is_complete();
    let (_, handler) = req.complete();
    (failure, done, handler)
}

#[test]
fn bare_request_line_serialization() {
    let mut sink = ByteBuffer::<256>::new();
    let con = HttpConnection::<256>::new();
    let req = con.begin("GET", "/x").execute::<_, 64>(&mut sink);
    assert!(req.failure().is_none());
    assert_eq!(sink.as_slice(), b"GET /x HTTP/1.1\r\n\r\n");
}

#[test]
fn payload_serialization_layout() {
    let mut sink = ByteBuffer::<256>::new();
    let con = HttpConnection::<256>::new();
    let headers = [("A", "1"), ("B", "2")];
    let req = con
        .begin("PUT", "/y")
        .headers(&headers)
        .execute_with::<_, 128>(&mut sink, Some(b"abcde"));
    assert!(req.failure().is_none());
    assert_eq!(
        sink.as_slice(),
        &b"PUT /y HTTP/1.1\r\nContent-Length: 5\r\nA: 1\r\nB: 2\r\n\r\nabcde"[..]
    );
}

#[test]
fn fragmentation_is_irrelevant() {
    let stream: &[u8] = b"HTTP/1.1 204 No Content\r\nX-A: 1\r\n\r\nhello world";
    // one fragment
    let whole: Vec<&[u8]> = vec![stream];
    // byte-at-a-time
    let mut single: Vec<&[u8]> = Vec::new();
    let mut i: usize = 0;
    while i < stream.len() {
        single.push(&stream[i..i + 1]);
        i += 1;
    }
    let (f1, d1, h1) = run_fragments(&whole, true);
    let (f2, d2, h2) = run_fragments(&single, true);
    assert_eq!(f1, f2);
    assert_eq!(d1, d2);
    assert_eq!(h1.code(), h2.code());
    assert_eq!(h1.version(), h2.version());
    assert_eq!(h1.reason(), h2.reason());
    assert_eq!(h1.payload(), h2.payload());
    assert_eq!(h1.is_complete(), h2.is_complete());
    assert_eq!(h1.code(), 204);
    assert_eq!(h1.reason(), "No Content");
    assert_eq!(h1.payload(), b"hello world");
}

#[test]
fn content_length_completes_without_close() {
    let (failure, done, handler) = run_fragments(
        &[b"HTTP/1.1 200 OK\r\nContent-Length: 10\r\n\r\n01234", b"56789"],
        false,
    );
    assert!(failure.is_none());
    assert!(done);
    assert!(handler.is_complete());
    assert_eq!(handler.payload(), b"0123456789");
}

#[test]
fn content_length_case_insensitive() {
    let (failure, done, handler) = run_fragments(
        &[b"HTTP/1.1 200 OK\r\ncOnTeNt-LeNgTh: 3\r\n\r\nabc"],
        false,
    );
    assert!(failure.is_none());
    assert!(done);
    assert!(handler.is_complete());
    assert_eq!(handler.payload(), b"abc");
}

#[test]
fn content_length_zero() {
    let (failure, done, handler) = run_fragments(
        &[b"HTTP/1.1 200 OK\r\nContent-Length: 0\r\n\r\n"],
        false,
    );
    assert!(failure.is_none());
    assert!(done);
    assert!(handler.is_complete());
    assert_eq!(handler.payload(), b"");
}

#[test]
fn excess_bytes_after_fixed_body_are_not_body() {
    let (failure, done, handler) = run_fragments(
        &[b"HTTP/1.1 200 OK\r\nContent-Length: 3\r\n\r\nabcXYZ"],
        false,
    );
    assert!(failure.is_none());
    assert!(done);
    assert_eq!(handler.payload(), b"abc");
}

#[test]
fn non_numeric_content_length_means_close_delimited() {
    let (failure, done, handler) = run_fragments(
        &[b"HTTP/1.1 200 OK\r\nContent-Length: ten\r\n\r\nabc"],
        false,
    );
    assert!(failure.is_none());
    assert!(!done);
    assert!(!handler.is_complete());
    let (failure, _, handler) = run_fragments(
        &[b"HTTP/1.1 200 OK\r\nContent-Length: ten\r\n\r\nabc"],
        true,
    );
    assert!(failure.is_none());
    assert!(handler.is_complete());
    assert_eq!(handler.payload(), b"abc");
}

#[test]
fn oversized_content_length_means_close_delimited() {
    let (failure, _, handler) = run_fragments(
        &[b"HTTP/1.1 200 OK\r\nContent-Length: 99999999999999999999999999\r\n\r\nab"],
        true,
    );
    assert!(failure.is_none());
    assert!(handler.is_complete());
    assert_eq!(handler.payload(), b"ab");
}

#[test]
fn close_completes_unbounded_body() {
    let (failure, done, handler) = run_fragments(
        &[b"HTTP/1.1 200 OK\r\n\r\n", b"abc", b"def"],
        false,
    );
    assert!(failure.is_none());
    assert!(!done);
    assert!(!handler.is_complete());
    let (failure, done, handler) = run_fragments(
        &[b"HTTP/1.1 200 OK\r\n\r\n", b"abc", b"def"],
        true,
    );
    assert!(failure.is_none());
    assert!(done);
    assert!(handler.is_complete());
    assert_eq!(handler.payload(), b"abcdef");
}

#[test]
fn status_line_without_reason() {
    let (failure, _, handler) = run_fragments(&[b"HTTP/1.1 200\r\n\r\nxy"], true);
    assert!(failure.is_none());
    assert_eq!(handler.code(), 200);
    assert_eq!(handler.reason(), "");
    assert_eq!(handler.payload(), b"xy");
}

#[test]
fn reports_http_minor_version() {
    let (_, _, handler) = run_fragments(&[b"HTTP/1.0 302 Found\r\n\r\n"], true);
    assert_eq!(handler.version(), 0);
    assert_eq!(handler.code(), 302);
}

#[test]
fn malformed_head_fails_the_request() {
    let (failure, done, handler) = run_fragments(&[b"NONSENSE\r\n\r\n"], false);
    assert_eq!(failure, Some(RequestError::MalformedResponse));
    assert!(!done);
    assert!(!handler.is_complete());
    assert_eq!(handler.code(), 0);
}

#[test]
fn close_during_headers_fails_the_request() {
    let (failure, done, _) = run_fragments(&[b"HTTP/1.1 2"], true);
    assert_eq!(failure, Some(RequestError::ClosedInHeaders));
    assert!(!done);
}

#[test]
fn oversized_head_fails_the_request() {
    let mut sink = ByteBuffer::<256>::new();
    let con = HttpConnection::<16>::new();
    let mut req = con
        .begin("GET", "/x")
        .handler(Handler::new())
        .execute::<_, 64>(&mut sink);
    req.push_data(b"HTTP/1.1 200 OK\r\nX-Padding: aaaaaaaaaaaaaaaa\r\n\r\n");
    assert_eq!(req.failure(), Some(RequestError::HeadersTooLarge));
    assert!(!req.is_complete());
}

#[test]
fn undersized_out_buffer_fails_the_send() {
    let mut sink = ByteBuffer::<256>::new();
    let con = HttpConnection::<256>::new();
    let req = con.begin("GET", "/x").execute::<_, 4>(&mut sink);
    assert_eq!(req.failure(), Some(RequestError::RequestTooLarge));
    assert!(!req.is_complete());
    assert_eq!(sink.as_slice(), b"");
}

#[test]
fn refusing_sink_fails_the_send() {
    let mut sink = ByteBuffer::<0>::new();
    let con = HttpConnection::<256>::new();
    let req = con.begin("GET", "/x").execute::<_, 64>(&mut sink);
    assert_eq!(req.failure(), Some(RequestError::SendFailed));
    assert!(!req.is_complete());
}

#[test]
fn failed_request_ignores_later_fragments() {
    let mut sink = ByteBuffer::<256>::new();
    let con = HttpConnection::<256>::new();
    let mut req = con
        .begin("GET", "/x")
        .handler(Handler::new())
        .execute::<_, 64>(&mut sink);
    req.push_data(b"NONSENSE\r\n\r\n");
    req.push_data(b"HTTP/1.1 200 OK\r\n\r\nabc");
    req.push_close();
    assert_eq!(req.failure(), Some(RequestError::MalformedResponse));
    let (_, handler) = req.complete();
    assert!(!handler.is_complete());
    assert_eq!(handler.payload(), b"");
}

#[test]
fn reason_phrase_longer_than_its_buffer_is_dropped() {
    let mut sink = ByteBuffer::<256>::new();
    let con = HttpConnection::<256>::new();
    let handler = BufferResponseHandler::<64, 4>::new();
    let mut req = con
        .begin("GET", "/x")
        .handler(handler)
        .execute::<_, 64>(&mut sink);
    req.push_data(b"HTTP/1.1 200 Everything Entirely Fine\r\n\r\n");
    req.push_close();
    let (_, handler) = req.complete();
    assert_eq!(handler.code(), 200);
    assert_eq!(handler.reason(), "");
}

#[test]
fn body_fragment_that_overflows_the_handler_is_dropped_whole() {
    let mut sink = ByteBuffer::<256>::new();
    let con = HttpConnection::<256>::new();
    let handler = BufferResponseHandler::<4, 32>::new();
    let mut req = con
        .begin("GET", "/x")
        .handler(handler)
        .execute::<_, 64>(&mut sink);
    req.push_data(b"HTTP/1.1 200 OK\r\n\r\n");
    req.push_data(b"ab");
    req.push_data(b"cdefgh");
    req.push_data(b"cd");
    req.push_close();
    let (_, handler) = req.complete();
    assert!(handler.is_complete());
    assert_eq!(handler.payload(), b"abcd");
}
