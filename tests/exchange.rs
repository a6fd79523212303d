use bytes::BytesMut;
use minihttp::{
    decimal_of, decode, internal_error_resp, now, response_bytes, CachedNow, Connection,
    Malformed, Request, Response, SendStep, Sending, Step, MAX_IDLE_WRITES,
};

fn feed(chunks: &[&[u8]]) -> (Vec<usize>, Option<Request>, Option<Malformed>) {
    let mut conn = Connection::new();
    let mut waits = Vec::new();
    for (i, c) in chunks.iter().enumerate() {
        match conn.on_read(c) {
            Step::ReadMore => waits.push(i),
            Step::Dispatch(req) => return (waits, Some(req), None),
            Step::Fail(e) => return (waits, None, Some(e)),
            Step::Close => return (waits, None, None),
        }
    }
    (waits, None, None)
}

fn same_request(a: &Request, b: &Request) -> bool {
    a.method() == b.method()
        && a.path() == b.path()
        && a.version() == b.version()
        && a.header_list() == b.header_list()
        && a.body().map(|x| x.to_vec()) == b.body().map(|x| x.to_vec())
}

#[test]
fn decodes_simple_get() {
    let mut buf = BytesMut::from(&b"GET / HTTP/1.1\r\nHost: x\r\n\r\n"[..]);
    let req = decode(&mut buf).unwrap().unwrap();
    assert_eq!(req.method(), "GET");
    assert_eq!(req.path(), "/");
    assert_eq!(req.version(), 1);
    assert_eq!(req.header_list(), vec![("Host".to_string(), b"x".to_vec())]);
    assert!(req.body().is_none());
    assert!(buf.is_empty());
}

#[test]
fn simple_get_dispatches_on_first_read() {
    let (waits, req, err) = feed(&[b"GET / HTTP/1.1\r\nHost: x\r\n\r\n"]);
    assert!(waits.is_empty());
    assert!(err.is_none());
    let req = req.unwrap();
    assert_eq!(req.method(), "GET");
    assert_eq!(req.path(), "/");
    assert_eq!(req.version(), 1);
    assert!(req.body().is_none());
}

#[test]
fn body_split_over_two_reads() {
    let (waits, req, _) =
        feed(&[b"POST /a HTTP/1.1\r\nContent-Length: 5\r\n\r\nhel", b"lo"]);
    assert_eq!(waits, vec![0]);
    let req = req.unwrap();
    assert_eq!(req.method(), "POST");
    assert_eq!(req.path(), "/a");
    assert_eq!(req.body().map(|x| x.to_vec()), Some(b"hello".to_vec()));
    assert_eq!(req.body_len(), 5);
}

#[test]
fn failing_service_yields_internal_error() {
    let resp = Response::new();
    let out = response_bytes(&resp, Some("boom"), b"D");
    let text = String::from_utf8(out).unwrap();
    assert!(text.starts_with("HTTP/1.1 500"));
    assert!(text.contains("boom"));
    assert_eq!(
        text,
        "HTTP/1.1 500 Internal Server Error\r\nServer: Example\r\nContent-Length: 4\r\nDate: D\r\n\r\nboom"
    );
}

#[test]
fn internal_error_response_replaces_partial_state() {
    let out = internal_error_resp("bad thing").encode(b"T");
    assert_eq!(
        out,
        b"HTTP/1.1 500 Internal Server Error\r\nServer: Example\r\nContent-Length: 9\r\nDate: T\r\n\r\nbad thing".to_vec()
    );
}

#[test]
fn malformed_head_fails_connection() {
    let mut buf = BytesMut::from(&b"BAD\r\n\r\n"[..]);
    assert!(decode(&mut buf).is_err());
    assert_eq!(&buf[..], &b"BAD\r\n\r\n"[..]);
    let (waits, req, err) = feed(&[b"BAD\r\n\r\n"]);
    assert!(waits.is_empty());
    assert!(req.is_none());
    assert!(err.is_some());
}

#[test]
fn bad_version_is_reported() {
    let mut buf = BytesMut::from(&b"GET / HTTP/2.0\r\n\r\n"[..]);
    assert_eq!(decode(&mut buf).err(), Some(Malformed::Version));
}

#[test]
fn too_many_headers_is_reported() {
    let mut text = String::from("GET / HTTP/1.1\r\n");
    for i in 0..257 {
        text.push_str(&format!("X-{}: v\r\n", i));
    }
    text.push_str("\r\n");
    let mut buf = BytesMut::from(text.as_bytes());
    assert_eq!(decode(&mut buf).err(), Some(Malformed::TooManyHeaders));
}

#[test]
fn partial_head_leaves_buffer() {
    let mut buf = BytesMut::from(&b"GET / HTTP/1.1\r\nHost"[..]);
    assert!(matches!(decode(&mut buf), Ok(None)));
    assert_eq!(&buf[..], &b"GET / HTTP/1.1\r\nHost"[..]);
}

#[test]
fn decode_detaches_only_the_head() {
    let mut buf = BytesMut::from(&b"POST / HTTP/1.0\r\nContent-Length: 2\r\n\r\nabEXTRA"[..]);
    let req = decode(&mut buf).unwrap().unwrap();
    assert_eq!(req.version(), 0);
    assert_eq!(req.body_len(), 2);
    assert_eq!(&buf[..], &b"abEXTRA"[..]);
}

#[test]
fn content_length_any_case_and_lenient() {
    let mut buf = BytesMut::from(&b"POST / HTTP/1.1\r\ncontent-LENGTH: 3\r\n\r\n"[..]);
    assert_eq!(decode(&mut buf).unwrap().unwrap().body_len(), 3);
    let mut buf = BytesMut::from(&b"POST / HTTP/1.1\r\nContent-Length: abc\r\n\r\n"[..]);
    assert_eq!(decode(&mut buf).unwrap().unwrap().body_len(), 0);
    let mut buf = BytesMut::from(&b"POST / HTTP/1.1\r\nContent-Length: +7\r\n\r\n"[..]);
    assert_eq!(decode(&mut buf).unwrap().unwrap().body_len(), 7);
    let mut buf = BytesMut::from(&b"POST / HTTP/1.1\r\nContent-Length: 99999999999999999999999\r\n\r\n"[..]);
    assert_eq!(decode(&mut buf).unwrap().unwrap().body_len(), 0);
    let mut buf = BytesMut::from(&b"POST / HTTP/1.1\r\nContent-Length: 1\r\nContent-Length: 4\r\n\r\n"[..]);
    assert_eq!(decode(&mut buf).unwrap().unwrap().body_len(), 4);
}

#[test]
fn any_split_decodes_as_one_read() {
    let whole: &[u8] = b"PUT /x/y HTTP/1.1\r\nHost: h\r\nContent-Length: 6\r\nX-A: b\r\n\r\nabcdef";
    let (_, single, _) = feed(&[whole]);
    let single = single.unwrap();
    assert_eq!(single.body().map(|x| x.to_vec()), Some(b"abcdef".to_vec()));
    for i in 1..whole.len() {
        for j in i + 1..whole.len() {
            let (_, split, _) = feed(&[&whole[..i], &whole[i..j], &whole[j..]]);
            let split = split.unwrap();
            assert!(same_request(&single, &split), "split at {} and {}", i, j);
        }
    }
}

#[test]
fn no_length_dispatches_without_body() {
    let (waits, req, _) = feed(&[b"GET /n HTTP/1.1\r\nA: b\r\n\r\n", b"more"]);
    assert!(waits.is_empty());
    assert!(req.unwrap().body().is_none());
}

#[test]
fn zero_length_dispatches_without_body() {
    let (waits, req, _) = feed(&[b"POST /z HTTP/1.1\r\nContent-Length: 0\r\n\r\n", b"x"]);
    assert!(waits.is_empty());
    let req = req.unwrap();
    assert!(req.body().is_none());
    assert_eq!(req.body_len(), 0);
}

#[test]
fn empty_read_closes() {
    let mut conn = Connection::new();
    assert!(matches!(conn.on_read(b""), Step::Close));
}

#[test]
fn leading_blank_lines_wait_for_the_head() {
    let (waits, req, _) = feed(&[b"\r\n\r\n", b"GET / HTTP/1.1\r\n\r\n"]);
    assert_eq!(waits, vec![0]);
    assert_eq!(req.unwrap().path(), "/");
}

#[test]
fn response_round_trip() {
    let mut resp = Response::new();
    resp.status_code(404, "Not Found");
    resp.header("X-One", "1");
    resp.header("X-Two", "2");
    resp.body("hello");
    let out = resp.encode(b"Mon, 1 Jan 2024 00:00:00 +0000");
    assert_eq!(
        out,
        b"HTTP/1.1 404 Not Found\r\nServer: Example\r\nContent-Length: 5\r\nDate: Mon, 1 Jan 2024 00:00:00 +0000\r\nX-One: 1\r\nX-Two: 2\r\n\r\nhello".to_vec()
    );
}

#[test]
fn default_status_and_body_bytes() {
    let mut resp = Response::new();
    resp.body("first");
    resp.body_bytes(&[1u8, 2, 3]);
    let out = resp.encode(b"d");
    assert!(out.starts_with(b"HTTP/1.1 200 OK\r\n"));
    assert!(out.ends_with(b"Content-Length: 3\r\nDate: d\r\n\r\n\x01\x02\x03"));
}

#[test]
fn ok_response_encodes_service_output() {
    let mut resp = Response::new();
    resp.body("fine");
    let out = response_bytes(&resp, None, b"d");
    assert_eq!(out, resp.encode(b"d"));
    assert!(out.ends_with(b"\r\n\r\nfine"));
}

#[test]
fn decimal_text() {
    assert_eq!(decimal_of(0), b"0".to_vec());
    assert_eq!(decimal_of(7), b"7".to_vec());
    assert_eq!(decimal_of(1024), b"1024".to_vec());
    assert_eq!(decimal_of(u64::MAX), b"18446744073709551615".to_vec());
}

#[test]
fn clock_serves_text_within_a_second() {
    let mut c = CachedNow::new();
    assert!(c.needs_update(1_000));
    c.observe(1_000, b"first");
    assert_eq!(c.text(), &b"first"[..]);
    c.observe(1_500, b"second");
    assert_eq!(c.text(), &b"first"[..]);
    c.observe(2_000, b"third");
    assert_eq!(c.text(), &b"first"[..]);
    c.observe(2_001, b"fourth");
    assert_eq!(c.text(), &b"fourth"[..]);
    assert!(!c.needs_update(3_001));
    assert!(c.needs_update(3_002));
}

#[test]
fn clock_formats_current_time() {
    let mut c = CachedNow::new();
    now().refresh(&mut c);
    let text = String::from_utf8(c.text().to_vec()).unwrap();
    assert!(text.len() > 20);
    assert!(text.contains(':'));
    assert!(!c.needs_update(i64::MIN));
}

#[test]
fn sending_tracks_partial_writes() {
    let mut s = Sending::new(10);
    assert!(matches!(s.on_write(4), SendStep::More));
    assert_eq!(s.sent(), 4);
    assert!(matches!(s.on_write(0), SendStep::More));
    assert_eq!(s.sent(), 4);
    assert!(matches!(s.on_write(6), SendStep::Done));
    assert_eq!(s.sent(), 10);
}

#[test]
fn sending_gives_up_after_idle_writes() {
    let mut s = Sending::new(3);
    for _ in 1..MAX_IDLE_WRITES {
        assert!(matches!(s.on_write(0), SendStep::More));
    }
    assert!(matches!(s.on_write(0), SendStep::Stalled));
    assert_eq!(s.sent(), 0);
}

#[test]
fn header_cursor_walks_in_order() {
    let mut buf = BytesMut::from(&b"GET / HTTP/1.1\r\nHost: x\r\nAccept: */*\r\n\r\n"[..]);
    let req = decode(&mut buf).unwrap().unwrap();
    let mut it = req.headers();
    assert_eq!(it.next(), Some(("Host".to_string(), b"x".to_vec())));
    assert_eq!(it.next(), Some(("Accept".to_string(), b"*/*".to_vec())));
    assert_eq!(it.next(), None);
    assert_eq!(it.next(), None);
}

#[test]
fn fields_point_into_the_detached_head() {
    let mut buf = BytesMut::from(&b"GET /p HTTP/1.1\r\nK: v\r\n\r\nrest"[..]);
    let req = decode(&mut buf).unwrap().unwrap();
    assert_eq!(&req.head()[..], &b"GET /p HTTP/1.1\r\nK: v\r\n\r\n"[..]);
    assert_eq!(req.path(), "/p");
    assert_eq!(req.header_list(), vec![("K".to_string(), b"v".to_vec())]);
    assert_eq!(&buf[..], &b"rest"[..]);
}
