use megadl::http::{ends_head, parse_status, post_head, split_url, BodyError, BodyKind, BodyReader, BodyStep, HeadReader};

fn parts(url: &str) -> (bool, String, u16, String) {
    let t = split_url(url).unwrap();
    (t.tls, t.host, t.port, t.path)
}

#[test]
fn urls_are_split() {
    assert_eq!(parts("https://a.b/c/d?e=/f"), (true, "a.b".into(), 443, "/c/d?e=/f".into()));
    assert_eq!(parts("http://a.b"), (false, "a.b".into(), 80, "/".into()));
    assert_eq!(parts("http://a.b:8080/x:1"), (false, "a.b".into(), 8080, "/x:1".into()));
    assert_eq!(parts("https://a:b:7/"), (true, "a:b".into(), 7, "/".into()));
    assert_eq!(parts("https://a:70000/"), (true, "a".into(), 443, "/".into()));
    assert_eq!(parts("http://a:/"), (false, "a".into(), 80, "/".into()));
    assert_eq!(parts("http://a:+9/"), (false, "a".into(), 9, "/".into()));
    assert_eq!(parts("http://"), (false, "".into(), 80, "/".into()));
    for bad in ["ftp://x", "", "HTTP://x", "https:/x"] {
        match split_url(bad) {
            Err(e) => assert_eq!(e, format!("unsupported URL scheme: {bad}")),
            Ok(_) => panic!("taken"),
        }
    }
}

#[test]
fn requests_begin_with_their_head() {
    let t = split_url("https://host:99/path").unwrap();
    assert_eq!(
        post_head(&t, &vec![], 0),
        "POST /path HTTP/1.1\r\nHost: host\r\nConnection: close\r\nContent-Length: 0\r\n\r\n"
    );
    assert_eq!(
        post_head(&t, &vec![("X-Hashcash".into(), "1:a:b".into()), ("K".into(), "".into())], 120),
        "POST /path HTTP/1.1\r\nHost: host\r\nConnection: close\r\nContent-Length: 120\r\nX-Hashcash: 1:a:b\r\nK: \r\n\r\n"
    );
}

#[test]
fn status_lines_are_read() {
    assert_eq!(parse_status("HTTP/1.1 200 OK\r\n"), Ok(200));
    assert_eq!(parse_status("  x \t 509"), Ok(509));
    for bad in ["", "HTTP/1.1", "HTTP/1.1 abc", "HTTP/1.1 70000 x", "HTTP/1.1 -1"] {
        assert_eq!(parse_status(bad), Err("bad status line".into()));
    }
}

fn head(lines: &[&str]) -> (BodyKind, Vec<(String, String)>) {
    let mut h = HeadReader::new();
    for l in lines {
        assert!(!ends_head(l));
        h.on_line(l);
    }
    let r = h.finish(200);
    assert_eq!(r.status, 200);
    (r.kind, r.headers)
}

#[test]
fn heads_tell_how_the_body_ends() {
    assert!(matches!(head(&[]).0, BodyKind::UntilClose));
    assert!(matches!(head(&["Content-Length: 12\r\n"]).0, BodyKind::ContentLength(12)));
    assert!(matches!(head(&["CONTENT-LENGTH:12\r\n", "content-length: x\r\n"]).0, BodyKind::UntilClose));
    assert!(matches!(head(&[" Content-Length: 12\r\n"]).0, BodyKind::UntilClose));
    assert!(matches!(head(&["Content-Length: 12\r\n", "transfer-Encoding: gzip, Chunked\r\n"]).0, BodyKind::Chunked));
    assert!(ends_head("\r\n") && ends_head("\n") && ends_head(""));
    assert!(!ends_head(" \r\n"));
}

#[test]
fn headers_are_found_whatever_their_case() {
    let mut h = HeadReader::new();
    h.on_line("X-Hashcash :  1:2:3:4 \r\n");
    h.on_line("no colon\r\n");
    h.on_line("x-hashcash: later\r\n");
    let r = h.finish(402);
    assert_eq!(r.headers.len(), 2);
    assert_eq!(r.header("x-HASHCASH"), Some("1:2:3:4"));
    assert_eq!(r.header("x-hash"), None);
}

/// Reads a body from `wire`, with a buffer of `room` bytes.
fn body(kind: BodyKind, wire: &[u8], room: usize) -> Result<Vec<u8>, &'static str> {
    let mut b = BodyReader::new(kind);
    let mut at = 0;
    let mut out = Vec::new();
    loop {
        let mut step = b.begin(room);
        let mut data = Vec::new();
        let given = loop {
            step = match step {
                BodyStep::Data(n) => {
                    data = wire[at..(at + n).min(wire.len())].to_vec();
                    at += data.len();
                    b.on_data(data.len())
                }
                BodyStep::SizeLine | BodyStep::TrailerLine => {
                    let end = wire[at..].iter().position(|c| *c == b'\n').map_or(wire.len(), |i| at + i + 1);
                    let line = String::from_utf8(wire[at..end].to_vec()).unwrap();
                    at = end;
                    if matches!(step, BodyStep::SizeLine) { b.on_size_line(&line, room) } else { b.on_trailer_line(&line) }
                }
                BodyStep::ChunkEnd(n) => {
                    at += 2;
                    b.on_chunk_end(n)
                }
                BodyStep::Give(n) => break n,
                BodyStep::Fail(e) => return Err(e.message()),
            };
        };
        assert_eq!(given, data.len());
        if given == 0 {
            assert!(matches!(b.begin(room), BodyStep::Give(0)));
            return Ok(out);
        }
        out.extend_from_slice(&data);
    }
}

#[test]
fn bodies_are_read() {
    for room in [1, 2, 3, 100] {
        assert_eq!(body(BodyKind::UntilClose, b"hello", room), Ok(b"hello".to_vec()));
        assert_eq!(body(BodyKind::ContentLength(3), b"hello", room), Ok(b"hel".to_vec()));
        assert_eq!(body(BodyKind::ContentLength(9), b"hello", room), Ok(b"hello".to_vec()));
        assert_eq!(body(BodyKind::ContentLength(0), b"hello", room), Ok(b"".to_vec()));
        let wire = b"5\r\nhello\r\n A ; x=1;\r\n0123456789\r\n0\r\nTrailer: x\r\n\r\nrest";
        assert_eq!(body(BodyKind::Chunked, wire, room), Ok(b"hello0123456789".to_vec()));
        assert_eq!(body(BodyKind::Chunked, b"5\r\nhel", room), Err("chunked body truncated"));
        assert_eq!(body(BodyKind::Chunked, b"5\r\nhello\r\nxyz\r\n", room), Err("bad chunk size"));
        assert_eq!(body(BodyKind::Chunked, b"", room), Err("bad chunk size"));
    }
    assert_eq!(BodyError::Truncated.message(), "chunked body truncated");
}

#[test]
fn an_empty_buffer_ends_nothing() {
    let mut b = BodyReader::new(BodyKind::ContentLength(0));
    assert!(matches!(b.begin(0), BodyStep::Give(0)));
    assert!(!b.done);
    assert!(matches!(b.begin(1), BodyStep::Give(0)));
    assert!(b.done);
}
