use atrium::http::{write_response, ReadStep, Request, RequestReader, Response};

fn read_all(chunks: &[&[u8]]) -> Option<Request> {
    let mut r = RequestReader::new();
    let mut next = 0;
    loop {
        match r.step() {
            ReadStep::Done(req) => return Some(req),
            ReadStep::Failed => return None,
            ReadStep::NeedMore => {
                if next == chunks.len() {
                    return None;
                }
                r.push(chunks[next]);
                next += 1;
            }
        }
    }
}

fn request(headers: Vec<(&str, &str)>, raw_head: &[u8]) -> Request {
    Request {
        method: "GET".to_string(),
        path: "/".to_string(),
        headers: headers.into_iter().map(|(k, v)| (k.to_string(), v.to_string())).collect(),
        body: vec![],
        raw_head: raw_head.to_vec(),
    }
}

#[test]
fn reads_a_request_with_a_body() {
    let req = read_all(&[b"POST /api/logon/start HTTP/1.1\r\nHost: a\r\nContent-Length: 3\r\n\r\nabcdef"]).unwrap();
    assert_eq!(req.method, "POST");
    assert_eq!(req.path, "/api/logon/start");
    assert_eq!(req.header("host"), Some("a"));
    assert_eq!(req.header("content-length"), Some("3"));
    assert_eq!(req.body, b"abc");
    assert_eq!(req.raw_head, b"POST /api/logon/start HTTP/1.1\r\nHost: a\r\nContent-Length: 3\r\n\r\n");
}

#[test]
fn reads_across_chunks() {
    let req = read_all(&[b"GET / HT", b"TP/1.1\r\nX-A:  b \r", b"\n\r\n"]).unwrap();
    assert_eq!(req.path, "/");
    assert_eq!(req.header("x-a"), Some("b"));
    assert!(req.body.is_empty());
    let req = read_all(&[b"POST / HTTP/1.1\r\ncontent-length: 4\r\n\r\nab", b"cd"]).unwrap();
    assert_eq!(req.body, b"abcd");
}

#[test]
fn refuses_bad_requests() {
    assert!(read_all(&[b"GARBAGE\r\n\r\n"]).is_none());
    assert!(read_all(&[b"GET / HTTP/1.1\r\nContent-Length: 65537\r\n\r\n"]).is_none());
    assert!(read_all(&[b"GET / HTTP/1.1\r\n"]).is_none());
    assert!(read_all(&[b"GET / HTTP/1.1\r\nContent-Length: 5\r\n\r\nab"]).is_none());
    let long = vec![b'a'; 16384];
    assert!(read_all(&[&long, b"\r\n\r\n"]).is_none());
    assert!(read_all(&[b"GET / HTTP/1.1\r\n\xff: x\r\n\r\n"]).is_none());
}

#[test]
fn head_found_in_a_late_chunk_is_accepted() {
    let mut first = b"GET / HTTP/1.1\r\nX: ".to_vec();
    first.resize(16000, b'a');
    let mut second = vec![b'b'; 1000];
    second.extend_from_slice(b"\r\n\r\n");
    let req = read_all(&[&first, &second]).unwrap();
    assert_eq!(req.header("x").unwrap().len(), 16000 - 19 + 1000);
}

#[test]
fn unparsable_length_means_no_body() {
    let req = read_all(&[b"POST / HTTP/1.1\r\nContent-Length: x\r\n\r\n"]).unwrap();
    assert!(req.body.is_empty());
    let req = read_all(&[b"POST / HTTP/1.1\r\nContent-Length: +2\r\n\r\nhi"]).unwrap();
    assert_eq!(req.body, b"hi");
}

#[test]
fn later_header_line_wins() {
    let req = read_all(&[b"GET / HTTP/1.1\r\nX: 1\r\nx: 2\r\n\r\n"]).unwrap();
    assert_eq!(req.header("x"), Some("2"));
    assert_eq!(req.header("y"), None);
}

#[test]
fn finds_a_cookie() {
    let req = request(vec![("cookie", "a=1; atrium=abc ;b=2")], b"");
    assert_eq!(req.cookie("atrium"), Some("abc"));
    assert_eq!(req.cookie("a"), Some("1"));
    assert_eq!(req.cookie("b"), Some("2"));
    assert_eq!(req.cookie("c"), None);
    let req = request(vec![("cookie", "atriumx=1")], b"");
    assert_eq!(req.cookie("atrium"), None);
    let req = request(vec![], b"");
    assert_eq!(req.cookie("atrium"), None);
}

#[test]
fn rewrites_the_head() {
    let req = request(vec![], b"GET /x HTTP/1.1\r\nHost: h\r\nCookie: atrium=s\r\n Accept : */*\r\n\r\n");
    let out = req.rewritten_head(&["cookie"], &["X-Atrium-Client-Addr: ::1".to_string()]);
    assert_eq!(
        out,
        b"GET /x HTTP/1.1\r\nHost: h\r\n Accept : */*\r\nX-Atrium-Client-Addr: ::1\r\n\r\n".to_vec()
    );
    assert_eq!(req.rewritten_head(&[], &[]), req.raw_head);
    let out = req.rewritten_head(&["accept", "host"], &[]);
    assert_eq!(out, b"GET /x HTTP/1.1\r\nCookie: atrium=s\r\n\r\n".to_vec());
}

#[test]
fn rewrites_an_invalid_head_lossily() {
    let req = request(vec![], b"GET / HTTP/1.1\r\nX: \xff\r\n\r\n");
    let out = req.rewritten_head(&[], &[]);
    assert_eq!(out, "GET / HTTP/1.1\r\nX: \u{fffd}\r\n\r\n".as_bytes().to_vec());
}

#[test]
fn writes_a_response() {
    let mut out = Vec::new();
    let r = Response::status(404, "Not Found").with_header("Location: /".to_string());
    write_response(&mut out, &r);
    assert_eq!(
        out,
        b"HTTP/1.1 404 Not Found\r\nContent-Type: text/plain; charset=utf-8\r\nContent-Length: 9\r\nConnection: close\r\nCache-Control: no-store\r\nLocation: /\r\n\r\nNot Found".to_vec()
    );
}

#[test]
fn builds_responses() {
    let r = Response::html("<p>hi</p>");
    assert_eq!((r.status, r.reason, r.content_type), (200, "OK", "text/html; charset=utf-8"));
    assert_eq!(r.body, b"<p>hi</p>");
    let r = Response::json(&serde_json::Value::Bool(true));
    assert_eq!(r.content_type, "application/json");
    assert_eq!(r.body, b"true");
    let mut m = serde_json::Map::new();
    m.insert("a".to_string(), serde_json::Value::from(1));
    let r = Response::json(&serde_json::Value::Object(m));
    assert_eq!(r.body, b"{\"a\":1}");
}
