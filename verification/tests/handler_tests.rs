use webserv::handler::{
    extract_boundary, extract_multipart_files, build_multipart, mime_type, handle_get,
    handle_delete, handle_post, post_write_response, PostPlan, html_escape,
    render_directory_listing,
};
use webserv::request::HttpRequestBuilder;
use webserv::response::{HttpResponseBuilder, SimpleResponse, FileStreamResponse, HttpResponseCommon};
use webserv::cookie::Cookie;

fn head_and_body(bytes: &[u8]) -> (String, Vec<u8>) {
    let pos = bytes
        .windows(4)
        .position(|w| w == b"\r\n\r\n")
        .expect("no blank line")
        + 4;
    (
        String::from_utf8_lossy(&bytes[..pos]).into_owned(),
        bytes[pos..].to_vec(),
    )
}

#[test]
fn builder_renders_status_headers_and_body() {
    let bytes = HttpResponseBuilder::ok()
        .header("Content-Type", "text/html")
        .body(b"hi".to_vec())
        .build();
    let (head, body) = head_and_body(&bytes);
    assert!(head.starts_with("HTTP/1.1 200 OK\r\n"));
    assert!(head.contains("Content-Type: text/html\r\n"));
    assert!(head.contains("Content-Length: 2\r\n"));
    assert_eq!(body, b"hi");
}

#[test]
fn byte_conservation_body_follows_head_exactly() {
    let content: Vec<u8> = (0u8..=255).collect();
    let bytes = HttpResponseBuilder::ok().body(content.clone()).build();
    let (_, body) = head_and_body(&bytes);
    assert_eq!(body, content);
}

#[test]
fn simple_response_drains_exactly_once() {
    let mut r = SimpleResponse::new(b"abcdef".to_vec());
    assert!(!r.is_finished());
    let mut out = Vec::new();
    out.extend_from_slice(&r.peek()[..2]);
    r.advance(2);
    out.extend_from_slice(r.peek());
    let n = r.peek().len();
    r.advance(n);
    assert!(r.is_finished());
    assert_eq!(out, b"abcdef");
}

#[test]
fn mime_types_by_extension() {
    assert_eq!(mime_type("/x/index.html"), "text/html");
    assert_eq!(mime_type("s.css"), "text/css");
    assert_eq!(mime_type("a.js"), "application/javascript");
    assert_eq!(mime_type("p.png"), "image/png");
    assert_eq!(mime_type("p.jpg"), "image/jpeg");
    assert_eq!(mime_type("p.jpeg"), "image/jpeg");
    assert_eq!(mime_type("p.gif"), "image/gif");
    assert_eq!(mime_type("file.bin"), "application/octet-stream");
}

#[test]
fn boundary_extracted_from_content_type() {
    assert_eq!(
        extract_boundary("multipart/form-data; boundary=XyZ").unwrap(),
        "XyZ"
    );
    assert!(extract_boundary("multipart/form-data").is_none());
}

#[test]
fn multipart_round_trip() {
    let parts = vec![
        ("a.txt".to_string(), b"hello".to_vec()),
        ("b.bin".to_string(), vec![0u8, 1, 2, 3]),
    ];
    let body = build_multipart(&parts, "XBOUND");
    let files = extract_multipart_files(&body, "XBOUND");
    assert_eq!(files.len(), 2);
    assert_eq!(files[0].0, "a.txt");
    assert_eq!(files[0].1, b"hello");
    assert_eq!(files[1].0, "b.bin");
    assert_eq!(files[1].1, vec![0u8, 1, 2, 3]);
}

#[test]
fn multipart_literal_body_extracts() {
    let body = b"--X\r\nContent-Disposition: form-data; name=\"f\"; filename=\"a.txt\"\r\n\r\nhello\r\n--X--\r\n";
    let files = extract_multipart_files(body, "X");
    assert_eq!(files.len(), 1);
    assert_eq!(files[0].0, "a.txt");
    assert_eq!(files[0].1, b"hello");
}

#[test]
fn get_serves_content_with_mime() {
    let cookie = Cookie::new("session_id", "s1");
    let resp = handle_get("/index.html", Some(b"<p>hi</p>".to_vec()), &cookie);
    let (head, body) = head_and_body(resp.peek());
    assert!(head.starts_with("HTTP/1.1 200 OK\r\n"));
    assert!(head.contains("Content-Type: text/html\r\n"));
    assert_eq!(body, b"<p>hi</p>");
}

#[test]
fn get_missing_file_serves_not_found() {
    let cookie = Cookie::new("session_id", "s1");
    let resp = handle_get("/gone.html", None, &cookie);
    let (head, body) = head_and_body(resp.peek());
    assert!(head.starts_with("HTTP/1.1 404 Not Found\r\n"));
    assert!(head.contains("Set-Cookie: session_id=s1\r\n"));
    assert!(body.is_empty());
}

#[test]
fn delete_served_and_repeated() {
    let ok = handle_delete(true, None);
    let (head, body) = head_and_body(&ok);
    assert!(head.starts_with("HTTP/1.1 204 No Content\r\n"));
    assert!(body.is_empty());

    let missing = handle_delete(false, Some(b"gone".to_vec()));
    let (head2, body2) = head_and_body(&missing);
    assert!(head2.starts_with("HTTP/1.1 404 Not Found\r\n"));
    assert_eq!(body2, b"gone");
}

fn parse(raw: &[u8]) -> HttpRequestBuilder {
    let mut p = HttpRequestBuilder::new();
    p.append(raw.to_vec()).unwrap();
    assert!(p.done());
    p
}

#[test]
fn post_multipart_plans_file_writes() {
    let body = b"--X\r\nContent-Disposition: form-data; name=\"f\"; filename=\"a.txt\"\r\n\r\nhello\r\n--X--\r\n";
    let mut raw = format!(
        "POST /upload/ HTTP/1.1\r\nHost: a.example\r\nContent-Type: multipart/form-data; boundary=X\r\nContent-Length: {}\r\n\r\n",
        body.len()
    )
    .into_bytes();
    raw.extend_from_slice(body);
    let parser = parse(&raw);
    let req = parser.get().unwrap();
    match handle_post("uploads/", req) {
        PostPlan::Save { targets, multipart } => {
            assert!(multipart);
            assert_eq!(targets.len(), 1);
            assert_eq!(targets[0].0, "uploads/a.txt");
            assert_eq!(targets[0].1, b"hello");
        }
        PostPlan::Reject(_) => panic!("rejected"),
    }
}

#[test]
fn post_single_payload_plans_one_write() {
    let raw = b"POST /files/name.txt HTTP/1.1\r\nContent-Type: text/plain\r\nContent-Length: 2\r\n\r\nhi";
    let parser = parse(raw);
    let req = parser.get().unwrap();
    match handle_post("store/files/name.txt", req) {
        PostPlan::Save { targets, multipart } => {
            assert!(!multipart);
            assert_eq!(targets.len(), 1);
            assert_eq!(targets[0].0, "store/files/name.txt");
            assert_eq!(targets[0].1, b"hi");
        }
        PostPlan::Reject(_) => panic!("rejected"),
    }
}

#[test]
fn post_without_content_type_rejected() {
    let raw = b"POST /u HTTP/1.1\r\nContent-Length: 2\r\n\r\nhi";
    let parser = parse(raw);
    let req = parser.get().unwrap();
    match handle_post("store/", req) {
        PostPlan::Reject(resp) => {
            let (head, _) = head_and_body(&resp);
            assert!(head.starts_with("HTTP/1.1 400 Bad Request\r\n"));
        }
        PostPlan::Save { .. } => panic!("saved"),
    }
}

#[test]
fn post_unknown_type_unsupported() {
    let raw = b"POST /u HTTP/1.1\r\nContent-Type: weird/type\r\nContent-Length: 2\r\n\r\nhi";
    let parser = parse(raw);
    let req = parser.get().unwrap();
    match handle_post("store/", req) {
        PostPlan::Reject(resp) => {
            let (head, _) = head_and_body(&resp);
            assert!(head.starts_with("HTTP/1.1 415 Unsupported Media Type\r\n"));
        }
        PostPlan::Save { .. } => panic!("saved"),
    }
}

#[test]
fn post_write_outcomes() {
    let names = vec!["a.txt".to_string(), "b.txt".to_string()];
    let created = post_write_response(true, &names, false);
    let (head, body) = head_and_body(&created);
    assert!(head.starts_with("HTTP/1.1 201 Created\r\n"));
    assert_eq!(body, b"Successfully uploaded: a.txt, b.txt");

    let plain = post_write_response(false, &names, false);
    let (head2, _) = head_and_body(&plain);
    assert!(head2.starts_with("HTTP/1.1 200 OK\r\n"));

    let failed = post_write_response(true, &names, true);
    let (head3, _) = head_and_body(&failed);
    assert!(head3.starts_with("HTTP/1.1 500 Internal Server Error\r\n"));
}

#[test]
fn listing_escapes_names() {
    assert_eq!(html_escape("a<b>&\"c\""), "a&lt;b&gt;&amp;&quot;c&quot;");
    let entries = vec!["a.txt".to_string(), "<img>.png".to_string()];
    let bytes = render_directory_listing("/pub", &entries);
    let (head, body) = head_and_body(&bytes);
    assert!(head.starts_with("HTTP/1.1 200 OK\r\n"));
    let text = String::from_utf8_lossy(&body).into_owned();
    assert!(text.contains("<li><a href=\"/pub/a.txt\">a.txt</a></li>"));
    assert!(text.contains("&lt;img&gt;.png"));
    assert!(!text.contains("<img>"));
}

#[test]
fn file_stream_drains_header_then_chunks() {
    let mut stream = FileStreamResponse::new(b"HTTP/1.1 200 OK\r\n\r\n".to_vec());
    let mut written: Vec<u8> = Vec::new();
    let file_chunks: Vec<&[u8]> = vec![b"abc", b"defg", b""];
    let mut next_chunk = 0;
    loop {
        if stream.needs_refill() {
            stream.accept_refill(file_chunks[next_chunk].to_vec());
            next_chunk += 1;
            continue;
        }
        if stream.is_finished() {
            break;
        }
        // Write in deliberately small pieces to exercise the cursors.
        let window = stream.peek().to_vec();
        let n = window.len().min(2);
        written.extend_from_slice(&window[..n]);
        stream.advance(n);
    }
    assert_eq!(written, b"HTTP/1.1 200 OK\r\n\r\nabcdefg");
}

#[test]
fn file_stream_advance_spans_header_and_window() {
    let mut stream = FileStreamResponse::new(b"HH".to_vec());
    assert_eq!(stream.peek(), b"HH");
    stream.advance(2);
    assert!(stream.needs_refill());
    stream.accept_refill(b"xyz".to_vec());
    assert_eq!(stream.peek(), b"xyz");
    stream.advance(3);
    assert!(stream.needs_refill());
    stream.accept_refill(Vec::new());
    assert!(stream.is_finished());
}

#[test]
fn advance_clamps_at_the_end() {
    let mut r = SimpleResponse::new(b"abc".to_vec());
    r.advance(100);
    assert!(r.is_finished());
    assert!(r.peek().is_empty());
}
