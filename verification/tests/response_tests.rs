use tiny_http_client::{
    decode_chunked, find_crlf, find_header_end, handle_response, parse_url, read_response,
    write_request, HttpError, Next, Response,
};

fn response(status: u16, headers: &[(&str, &str)], body: &[u8]) -> Response {
    Response {
        status,
        headers: headers.iter().map(|(k, v)| (k.to_string(), v.to_string())).collect(),
        body: body.to_vec(),
    }
}

#[test]
fn finds_line_ends() {
    assert_eq!(find_crlf(b"ab\r\ncd\r\n"), Some(2));
    assert_eq!(find_crlf(b"ab\rcd\n"), None);
    assert_eq!(find_crlf(b""), None);
    assert_eq!(find_header_end(b"A\r\nB\r\n\r\nbody\r\n\r\n"), Some(4));
    assert_eq!(find_header_end(b"A\r\n\r"), None);
}

#[test]
fn reads_plain_response() {
    let r = read_response(b"HTTP/1.1 200 OK\r\nContent-Type:  text/plain \r\nX-Empty:\r\n\r\nhello\r\n").unwrap();
    assert_eq!(r.status, 200);
    assert_eq!(
        r.headers,
        vec![
            ("Content-Type".to_string(), "text/plain".to_string()),
            ("X-Empty".to_string(), "".to_string())
        ]
    );
    assert_eq!(r.as_bytes(), b"hello\r\n");
    assert_eq!(r.as_str().unwrap(), "hello\r\n");
}

#[test]
fn lines_without_colon_are_skipped() {
    let r = read_response(b"HTTP/1.0 404 Not Found\r\nnot a header\r\n\r\n\r\nA: b:c\r\n\r\n").unwrap();
    assert_eq!(r.status, 404);
    assert!(r.headers.is_empty());
    assert_eq!(r.body, b"\r\nA: b:c\r\n\r\n".to_vec());
    let r = read_response(b"X 301\r\n\r\nA: b:c\r\n\r\n").unwrap();
    assert_eq!(r.status, 301);
}

#[test]
fn header_values_keep_inner_colons() {
    let r = read_response(b"HTTP/1.1 302 Found\r\nLocation: http://x/y\r\n\r\n").unwrap();
    assert_eq!(r.header("location"), Some("http://x/y"));
}

#[test]
fn status_line_errors() {
    assert_eq!(read_response(b"HTTP/1.1\r\n\r\n").err(), Some(HttpError::InvalidStatusLine));
    assert_eq!(read_response(b"HTTP/1.1 abc\r\n\r\n").err(), Some(HttpError::InvalidStatusCode));
    assert_eq!(read_response(b"HTTP/1.1 70000 X\r\n\r\n").err(), Some(HttpError::InvalidStatusCode));
    assert_eq!(read_response(b"HTTP/1.1  200 OK\r\n\r\n").err(), Some(HttpError::InvalidStatusCode));
    assert_eq!(read_response(b"HTTP/1.1 200 OK\r\n").err(), Some(HttpError::HeadersNotFound));
    assert_eq!(read_response(b"HTTP/1.1 200 \xff\r\n\r\n").err(), Some(HttpError::InvalidUtf8));
}

#[test]
fn reads_chunked_response() {
    let raw = b"HTTP/1.1 200 OK\r\nTransfer-Encoding: gzip, Chunked \r\n\r\n4\r\nWiki\r\n5;ext=1\r\npedia\r\n0\r\nTrailer: x\r\n\r\n";
    let r = read_response(raw).unwrap();
    assert_eq!(r.body, b"Wikipedia".to_vec());
    let raw = b"HTTP/1.1 200 OK\r\ntransfer-encoding:chunked\r\n\r\n 1 \r\nZ\r\n0\r\n";
    assert_eq!(read_response(raw).unwrap().body, b"Z".to_vec());
}

#[test]
fn not_chunked_when_coding_differs() {
    let raw = b"HTTP/1.1 200 OK\r\nTransfer-Encoding: chunkedx\r\n\r\n4\r\nWiki\r\n0\r\n\r\n";
    let r = read_response(raw).unwrap();
    assert_eq!(r.body, b"4\r\nWiki\r\n0\r\n\r\n".to_vec());
}

#[test]
fn chunked_decoding() {
    assert_eq!(decode_chunked(b"4\r\nWiki\r\n5\r\npedia\r\n0\r\n\r\n").unwrap(), b"Wikipedia".to_vec());
    assert_eq!(decode_chunked(b"A\r\n0123456789\r\n0\r\n").unwrap(), b"0123456789".to_vec());
    assert_eq!(decode_chunked(b"+a\r\n0123456789\r\n0\r\n").unwrap(), b"0123456789".to_vec());
    assert_eq!(decode_chunked(b"\xc2\xa03\xc2\xa0\r\nabc\r\n0\r\n").unwrap(), b"abc".to_vec());
}

#[test]
fn chunked_errors() {
    assert_eq!(decode_chunked(b"4").err(), Some(HttpError::ChunkSizeNotFound));
    assert_eq!(decode_chunked(b"4\r\nWiki\r\n").err(), Some(HttpError::ChunkSizeNotFound));
    assert_eq!(decode_chunked(b"zz\r\n").err(), Some(HttpError::InvalidChunkSize));
    assert_eq!(decode_chunked(b"\r\n").err(), Some(HttpError::InvalidChunkSize));
    assert_eq!(decode_chunked(b"-1\r\n").err(), Some(HttpError::InvalidChunkSize));
    assert_eq!(decode_chunked(b"\xff\r\n").err(), Some(HttpError::InvalidUtf8));
    assert_eq!(decode_chunked(b"9\r\nWiki\r\n").err(), Some(HttpError::IncompleteChunk));
    assert_eq!(decode_chunked(b"4\r\nWikiXY0\r\n").err(), Some(HttpError::MissingChunkCrlf));
    assert_eq!(decode_chunked(b"4\r\nWiki").err(), Some(HttpError::MissingChunkCrlf));
    assert_eq!(
        decode_chunked(b"ffffffffffffffff\r\nx").err(),
        Some(HttpError::ChunkSizeOverflow)
    );
    assert_eq!(
        decode_chunked(b"10000000000000000\r\nx").err(),
        Some(HttpError::InvalidChunkSize)
    );
}

#[test]
fn header_lookup_ignores_case() {
    let r = response(200, &[("Content-Type", "a"), ("content-type", "b"), ("ETag", "e")], b"");
    assert_eq!(r.header("CONTENT-TYPE"), Some("a"));
    assert_eq!(r.header("content-type"), Some("a"));
    assert_eq!(r.header("etag"), Some("e"));
    assert_eq!(r.header("Content-Length"), None);
    assert_eq!(r.header("Content-Typ"), None);
}

#[test]
fn body_as_text() {
    let r = response(200, &[], "héllo".as_bytes());
    assert_eq!(r.as_str().unwrap(), "héllo");
    let r = response(200, &[], b"\xc3\x28");
    assert!(r.as_str().is_err());
}

#[test]
fn request_text() {
    let mut text = String::new();
    write_request(&mut text, "example.com", "/a?b", &[("Accept-Language", "en"), ("X", "y z")]).unwrap();
    assert_eq!(
        text,
        "GET /a?b HTTP/1.1\r\nHost: example.com\r\nUser-Agent: peers_updater\r\nAccept: */*\r\nConnection: close\r\nAccept-Language: en\r\nX: y z\r\n\r\n"
    );
    let mut text = "before".to_string();
    write_request(&mut text, "h", "/", &[]).unwrap();
    assert_eq!(
        text,
        "beforeGET / HTTP/1.1\r\nHost: h\r\nUser-Agent: peers_updater\r\nAccept: */*\r\nConnection: close\r\n\r\n"
    );
}

#[test]
fn line_breaks_in_headers_are_refused() {
    let mut text = String::new();
    assert_eq!(write_request(&mut text, "h", "/", &[("A", "b\r\nEvil: 1")]).err(), Some(HttpError::InvalidHeader));
    assert_eq!(
        text,
        "GET / HTTP/1.1\r\nHost: h\r\nUser-Agent: peers_updater\r\nAccept: */*\r\nConnection: close\r\n"
    );
    let mut text = String::new();
    assert_eq!(write_request(&mut text, "h", "/", &[("A\n", "b")]).err(), Some(HttpError::InvalidHeader));
    let mut text = String::new();
    assert_eq!(
        write_request(&mut text, "h", "/", &[("A", "ok"), ("B", "\r"), ("C", "d")]).err(),
        Some(HttpError::InvalidHeader)
    );
    assert_eq!(
        text,
        "GET / HTTP/1.1\r\nHost: h\r\nUser-Agent: peers_updater\r\nAccept: */*\r\nConnection: close\r\nA: ok\r\n"
    );
}

#[test]
fn redirect_with_location_is_followed() {
    let cur = parse_url("https://a.com/dir/x").unwrap();
    for status in [301u16, 302, 303, 307, 308] {
        match handle_response(&cur, response(status, &[("LOCATION", "y")], b"")) {
            Next::Redirect(u) => assert_eq!(u, "https://a.com:443/dir/y"),
            _ => panic!("expected a redirect"),
        }
    }
}

#[test]
fn other_statuses_end_the_request() {
    let cur = parse_url("http://a.com/").unwrap();
    match handle_response(&cur, response(200, &[("Location", "/z")], b"ok")) {
        Next::Done(r) => assert_eq!(r.body, b"ok".to_vec()),
        _ => panic!("expected success"),
    }
    match handle_response(&cur, response(299, &[], b"")) {
        Next::Done(r) => assert_eq!(r.status, 299),
        _ => panic!("expected success"),
    }
    match handle_response(&cur, response(301, &[], b"")) {
        Next::Failed(e) => assert_eq!(e, HttpError::HttpStatus(301)),
        _ => panic!("expected failure"),
    }
    match handle_response(&cur, response(404, &[("Location", "/z")], b"")) {
        Next::Failed(e) => assert_eq!(e, HttpError::HttpStatus(404)),
        _ => panic!("expected failure"),
    }
    match handle_response(&cur, response(199, &[], b"")) {
        Next::Failed(e) => assert_eq!(e, HttpError::HttpStatus(199)),
        _ => panic!("expected failure"),
    }
}

#[test]
fn chunked_encoding_decodes_to_its_chunks() {
    let chunks: Vec<Vec<u8>> = vec![b"abcdefghijklmnopqrstuvwxyz".to_vec(), b"0".to_vec(), vec![0u8; 300]];
    let mut encoded = Vec::new();
    for c in &chunks {
        encoded.extend_from_slice(format!("{:x}\r\n", c.len()).as_bytes());
        encoded.extend_from_slice(c);
        encoded.extend_from_slice(b"\r\n");
    }
    encoded.extend_from_slice(b"0\r\n\r\n");
    assert_eq!(decode_chunked(&encoded).unwrap(), chunks.concat());
    assert_eq!(decode_chunked(b"1A\r\nabcdefghijklmnopqrstuvwxyz\r\n0\r\n\r\n").unwrap().len(), 26);
}

#[test]
fn invalid_body_reports_valid_prefix() {
    let r = response(200, &[], b"ab\xc3\x28cd");
    assert_eq!(r.as_str().unwrap_err().valid_up_to(), 2);
    let r = response(200, &[], b"\xffx");
    assert_eq!(r.as_str().unwrap_err().valid_up_to(), 0);
}

#[test]
fn chunked_body_with_mixed_sizes_and_trailer() {
    let data = b"00C;name=value\r\nhello\r\nworld\r\n1a\r\nabcdefghijklmnopqrstuvwxyz\r\n0\r\nExpires: never\r\n\r\ngarbage";
    assert_eq!(
        decode_chunked(data).unwrap(),
        b"hello\r\nworldabcdefghijklmnopqrstuvwxyz".to_vec()
    );
}
