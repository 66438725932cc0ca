use drogue_http_client::{ByteBuffer, BufferResponseHandler, HttpConnection};

fn assert_request(
    con: HttpConnection<1024>,
    sink: &mut ByteBuffer<1024>,
    method: &'static str,
    path: &'static str,
    headers: &'static [(&'static str, &'static str)],
    payload: Option<&[u8]>,
    push: &[&[u8]],
    close_after_push: bool,
    code: u16,
    reason: &str,
    expected_payload: &[u8],
    expected_sink: &[u8],
) -> HttpConnection<1024> {
    let handler = BufferResponseHandler::<1024, 128>::new();

    let mut req = {
        con.begin(method, path)
            .headers(headers)
            .handler(handler)
            .execute_with::<_, 1024>(sink, payload)
    };

    assert!(req.failure().is_none());

    for p in push {
        req.push_data(p);
    }

    if close_after_push {
        req.push_close();
    }

    let (con, handler) = req.complete();

    assert_eq!(
        std::str::from_utf8(expected_sink).ok(),
        std::str::from_utf8(sink.as_slice()).ok(),
    );
    sink.clear();

    assert_eq!(code, handler.code());
    assert_eq!(reason, handler.reason());
    assert_eq!(
        std::str::from_utf8(handler.payload()),
        std::str::from_utf8(expected_payload)
    );
    assert!(handler.is_complete());

    con
}

fn assert_http(
    method: &'static str,
    path: &'static str,
    headers: &'static [(&'static str, &'static str)],
    payload: Option<&[u8]>,
    expected_sink: &[u8],
    push: &[&[u8]],
    code: u16,
    reason: &str,
    expected_payload: &[u8],
) {
    let mut sink = ByteBuffer::<1024>::new();
    let con = HttpConnection::<1024>::new();

    assert_request(
        con,
        &mut sink,
        method,
        path,
        headers,
        payload,
        push,
        true,
        code,
        reason,
        expected_payload,
        expected_sink,
    );
}

#[test]
fn idea() -> Result<(), ()> {
    let mut sink_buffer = ByteBuffer::<1024>::new();
    let con = HttpConnection::<1024>::new();

    let headers = [("Content-Type", "text/json")];

    let handler = BufferResponseHandler::<1024, 128>::new();

    let mut req = {
        con.post("/foo.bar")
            .headers(&headers)
            .handler(handler)
            .execute::<_, 128>(&mut sink_buffer)
    };

    // mock response

    req.push_data(b"HTTP/1.1 ");
    req.push_data(b"200 OK\r\n");
    req.push_data(b"\r\n");
    req.push_data(b"123");
    req.push_close();

    let (_, handler) = req.complete();

    // sink

    assert_eq!(
        std::str::from_utf8(sink_buffer.as_slice()).unwrap(),
        "POST /foo.bar HTTP/1.1\r\nContent-Type: text/json\r\n\r\n",
    );

    // result

    assert_eq!(200, handler.code());
    assert_eq!("OK", handler.reason());
    assert_eq!(std::str::from_utf8(handler.payload()), Ok("123"));

    assert!(handler.is_complete());

    Ok(())
}

#[test]
fn simple() {
    assert_http(
        "POST",
        "/",
        &[],
        None,
        b"POST / HTTP/1.1\r\n\r\n",
        &[b"HTTP/1.1 200 OK\r\n\r\n0123456789"],
        200,
        "OK",
        b"0123456789",
    );
}

#[test]
fn simple_split_1() {
    assert_http(
        "POST",
        "/",
        &[],
        None,
        b"POST / HTTP/1.1\r\n\r\n",
        &[b"HTTP/1.1 200 OK\r\n\r\n01234", b"56789"],
        200,
        "OK",
        b"0123456789",
    );
}

#[test]
fn simple_split_2() {
    assert_http(
        "POST",
        "/",
        &[],
        None,
        b"POST / HTTP/1.1\r\n\r\n",
        &[b"HTTP/1.1 200 ", b"OK\r\n\r\n01234", b"56789"],
        200,
        "OK",
        b"0123456789",
    );
}

#[test]
fn simple_header() {
    assert_http(
        "POST",
        "/",
        &[("Content-Type", "text/json")],
        None,
        b"POST / HTTP/1.1\r\nContent-Type: text/json\r\n\r\n",
        &[b"HTTP/1.1 200 OK\r\n\r\n0123456789"],
        200,
        "OK",
        b"0123456789",
    );
}

#[test]
fn simple_send_payload() {
    assert_http(
        "POST",
        "/",
        &[("Content-Type", "text/json")],
        Some(b"0123456789"),
        b"POST / HTTP/1.1\r\nContent-Length: 10\r\nContent-Type: text/json\r\n\r\n0123456789",
        &[b"HTTP/1.1 200 OK\r\n\r\n0123456789"],
        200,
        "OK",
        b"0123456789",
    );
}

#[test]
fn multiple() {
    let mut sink = ByteBuffer::<1024>::new();

    let con = HttpConnection::<1024>::new();

    let con = assert_request(
        con,
        &mut sink,
        "POST",
        "/",
        &[("Content-Type", "text/plain")],
        None,
        &[b"HTTP/1.1 200 OK\r\nContent-Length: 10\r\n\r\n0123456789"],
        false,
        200,
        "OK",
        b"0123456789",
        b"POST / HTTP/1.1\r\nContent-Type: text/plain\r\n\r\n",
    );

    assert_request(
        con,
        &mut sink,
        "POST",
        "/",
        &[("Content-Type", "text/plain")],
        None,
        &[b"HTTP/1.1 200 OK\r\nContent-Length: 10\r\n\r\n0123456789"],
        true,
        200,
        "OK",
        b"0123456789",
        b"POST / HTTP/1.1\r\nContent-Type: text/plain\r\n\r\n",
    );
}
