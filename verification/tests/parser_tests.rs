use webserv::request::{HttpRequestBuilder, ParseError};

fn feed(parser: &mut HttpRequestBuilder, bytes: &[u8]) -> Result<(), ParseError> {
    parser.append(bytes.to_vec())
}

#[test]
fn parses_simple_get() {
    let mut p = HttpRequestBuilder::new();
    feed(&mut p, b"GET /index.html HTTP/1.1\r\nHost: a.example\r\n\r\n").unwrap();
    assert!(p.done());
    let req = p.get().unwrap();
    assert_eq!(req.method, "GET");
    assert_eq!(req.path, "/index.html");
    assert_eq!(req.version, "HTTP/1.1");
    assert_eq!(req.headers.get("host").unwrap(), "a.example");
    assert_eq!(req.headers.get("HOST").unwrap(), "a.example");
    assert!(req.body.is_none());
}

#[test]
fn incremental_parse_matches_whole() {
    let raw = b"POST /u HTTP/1.1\r\nHost: a.example\r\nContent-Length: 5\r\n\r\nhello";
    let mut whole = HttpRequestBuilder::new();
    whole.append(raw.to_vec()).unwrap();
    assert!(whole.done());

    // Feed the same request byte by byte.
    let mut steps = HttpRequestBuilder::new();
    for b in raw.iter() {
        steps.append(vec![*b]).unwrap();
    }
    assert!(steps.done());

    let a = whole.get().unwrap();
    let b = steps.get().unwrap();
    assert_eq!(a.method, b.method);
    assert_eq!(a.path, b.path);
    assert_eq!(a.version, b.version);
    assert_eq!(a.body.as_deref(), Some(&b"hello"[..]));
    assert_eq!(b.body.as_deref(), Some(&b"hello"[..]));

    // And in two uneven cuts.
    let mut cuts = HttpRequestBuilder::new();
    cuts.append(raw[..11].to_vec()).unwrap();
    assert!(!cuts.done());
    cuts.append(raw[11..].to_vec()).unwrap();
    assert!(cuts.done());
    assert_eq!(cuts.get().unwrap().body.as_deref(), Some(&b"hello"[..]));
}

#[test]
fn header_line_cap_rejected() {
    let mut p = HttpRequestBuilder::new();
    let mut raw = b"GET / HTTP/1.1\r\nX-Long: ".to_vec();
    raw.extend(std::iter::repeat(b'a').take(17000));
    raw.extend_from_slice(b"\r\n\r\n");
    let err = p.append(raw).unwrap_err();
    assert_eq!(err, ParseError::EntityTooLarge);
}

#[test]
fn header_count_cap_rejected() {
    let mut p = HttpRequestBuilder::new();
    let mut raw = b"GET / HTTP/1.1\r\n".to_vec();
    for i in 0..101 {
        raw.extend_from_slice(format!("H{}: v\r\n", i).as_bytes());
    }
    raw.extend_from_slice(b"\r\n");
    let err = p.append(raw).unwrap_err();
    assert_eq!(err, ParseError::EntityTooLarge);
}

#[test]
fn declared_body_over_cap_rejected() {
    let mut p = HttpRequestBuilder::new_with_limit(10);
    let raw = b"POST /u HTTP/1.1\r\nContent-Length: 11\r\n\r\n";
    let err = p.append(raw.to_vec()).unwrap_err();
    assert_eq!(err, ParseError::EntityTooLarge);
}

#[test]
fn chunked_body_over_cap_rejected() {
    let mut p = HttpRequestBuilder::new_with_limit(4);
    let raw = b"POST /u HTTP/1.1\r\nTransfer-Encoding: chunked\r\n\r\n5\r\nhello\r\n0\r\n\r\n";
    let err = p.append(raw.to_vec()).unwrap_err();
    assert_eq!(err, ParseError::EntityTooLarge);
}

#[test]
fn chunked_body_assembled() {
    let mut p = HttpRequestBuilder::new();
    let raw = b"POST /u HTTP/1.1\r\nTransfer-Encoding: chunked\r\n\r\n5\r\nhello\r\n6\r\n world\r\n0\r\n\r\n";
    p.append(raw.to_vec()).unwrap();
    assert!(p.done());
    assert_eq!(p.get().unwrap().body.as_deref(), Some(&b"hello world"[..]));
}

#[test]
fn bad_request_line_rejected() {
    let mut p = HttpRequestBuilder::new();
    let err = p.append(b"NONSENSE\r\n\r\n".to_vec()).unwrap_err();
    assert_eq!(err, ParseError::BadRequest);
}

#[test]
fn bad_content_length_rejected() {
    let mut p = HttpRequestBuilder::new();
    let err = p
        .append(b"POST /u HTTP/1.1\r\nContent-Length: abc\r\n\r\n".to_vec())
        .unwrap_err();
    assert_eq!(err, ParseError::BadRequest);
}

#[test]
fn query_is_split_and_decoded() {
    let mut p = HttpRequestBuilder::new();
    p.append(b"GET /script.py?x=1&y=two HTTP/1.1\r\nHost: a\r\n\r\n".to_vec())
        .unwrap();
    let req = p.get().unwrap();
    assert_eq!(req.path, "/script.py");
    assert_eq!(req.query, "x=1&y=two");
    assert_eq!(req.query_params.get("x").unwrap(), "1");
    assert_eq!(req.query_params.get("y").unwrap(), "two");
    assert!(req.query_params.get("z").is_none());
}

#[test]
fn duplicate_query_key_last_wins() {
    let mut p = HttpRequestBuilder::new();
    p.append(b"GET /a?k=1&k=2 HTTP/1.1\r\nHost: a\r\n\r\n".to_vec())
        .unwrap();
    let req = p.get().unwrap();
    assert_eq!(req.query_params.get("k").unwrap(), "2");
}

#[test]
fn appended_after_done_is_no_op() {
    let mut p = HttpRequestBuilder::new();
    p.append(b"GET / HTTP/1.1\r\n\r\n".to_vec()).unwrap();
    assert!(p.done());
    p.append(b"GARBAGE".to_vec()).unwrap();
    assert!(p.done());
    assert_eq!(p.get().unwrap().path, "/");
}

#[test]
fn session_id_read_from_cookie_header() {
    let mut p = HttpRequestBuilder::new();
    p.append(b"GET / HTTP/1.1\r\nCookie: a=b; session_id=tok123\r\n\r\n".to_vec())
        .unwrap();
    let req = p.get().unwrap();
    assert_eq!(req.get_session_id().unwrap(), "tok123");
}

#[test]
fn chunked_incremental_matches_whole() {
    let raw = b"POST /u HTTP/1.1\r\nTransfer-Encoding: chunked\r\n\r\n3\r\nabc\r\n2\r\nde\r\n0\r\n\r\n";
    let mut whole = HttpRequestBuilder::new();
    whole.append(raw.to_vec()).unwrap();
    assert!(whole.done());
    let mut steps = HttpRequestBuilder::new();
    for b in raw.iter() {
        steps.append(vec![*b]).unwrap();
    }
    assert!(steps.done());
    assert_eq!(whole.get().unwrap().body.as_deref(), Some(&b"abcde"[..]));
    assert_eq!(steps.get().unwrap().body.as_deref(), Some(&b"abcde"[..]));
}
