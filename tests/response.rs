use docker_transport::error::TransportError;
use docker_transport::response::parse_response;

#[test]
fn content_length_exact_body() {
    let raw = b"HTTP/1.1 200 OK\r\nContent-Length: 5\r\n\r\nhello";
    let resp = parse_response(raw, false).unwrap().unwrap();
    assert_eq!(resp.status, 200);
    assert_eq!(resp.body, b"hello".to_vec());
}

#[test]
fn content_length_extra_bytes_ignored() {
    let raw = b"HTTP/1.1 200 OK\r\ncontent-length: 2\r\n\r\nhello";
    let resp = parse_response(raw, true).unwrap().unwrap();
    assert_eq!(resp.body, b"he".to_vec());
}

#[test]
fn content_length_short_body_is_truncated() {
    let raw = b"HTTP/1.1 200 OK\r\nContent-Length: 10\r\n\r\nhello";
    assert!(matches!(parse_response(raw, true), Err(TransportError::TruncatedBody)));
    assert!(matches!(parse_response(raw, false), Ok(None)));
}

#[test]
fn missing_blank_line_needs_more() {
    let raw = b"HTTP/1.1 200 OK\r\nContent-Length: 5\r\n";
    assert!(matches!(parse_response(raw, false), Ok(None)));
    assert!(matches!(parse_response(raw, true), Err(TransportError::ConnectionLost)));
}

#[test]
fn unframed_body_runs_to_close() {
    let raw = b"HTTP/1.1 200 OK\r\nServer: x\r\n\r\n{\"a\":1}{\"b\":2}";
    assert!(matches!(parse_response(raw, false), Ok(None)));
    let resp = parse_response(raw, true).unwrap().unwrap();
    assert_eq!(resp.body, b"{\"a\":1}{\"b\":2}".to_vec());
}

#[test]
fn chunked_response_body() {
    let raw = b"HTTP/1.1 200 OK\r\nTransfer-Encoding: gzip, Chunked\r\n\r\n3\r\nabc\r\n2\r\nde\r\n0\r\n\r\n";
    let resp = parse_response(raw, false).unwrap().unwrap();
    assert_eq!(resp.body, b"abcde".to_vec());
}

#[test]
fn chunked_response_truncated() {
    let raw = b"HTTP/1.1 200 OK\r\nTransfer-Encoding: chunked\r\n\r\n3\r\nabc\r\n2\r\nd";
    assert!(matches!(parse_response(raw, true), Err(TransportError::ChunkedDecodeError)));
    assert!(matches!(parse_response(raw, false), Ok(None)));
}

#[test]
fn chunked_wins_over_content_length() {
    let raw = b"HTTP/1.1 200 OK\r\nContent-Length: 1\r\nTransfer-Encoding: chunked\r\n\r\n2\r\nok\r\n0\r\n\r\n";
    let resp = parse_response(raw, false).unwrap().unwrap();
    assert_eq!(resp.body, b"ok".to_vec());
}

#[test]
fn malformed_status_line() {
    let raw = b"HTTP/1.1 OK\r\n\r\n";
    assert!(matches!(parse_response(raw, true), Err(TransportError::MalformedStatusLine)));
    let raw = b"HTTP/1.1 20 OK\r\n\r\n";
    assert!(matches!(parse_response(raw, true), Err(TransportError::MalformedStatusLine)));
    let raw = b"garbage\r\n\r\n";
    assert!(matches!(parse_response(raw, true), Err(TransportError::MalformedStatusLine)));
}

#[test]
fn status_line_without_reason() {
    let raw = b"HTTP/1.1 204\r\n\r\n";
    let resp = parse_response(raw, true).unwrap().unwrap();
    assert_eq!(resp.status, 204);
    assert!(resp.body.is_empty());
}

#[test]
fn duplicate_headers_kept_in_order() {
    let raw = b"HTTP/1.1 200 OK\r\nSet-Cookie: a=1\r\nX-Other:  y \r\nset-cookie: b=2\r\nContent-Length: 0\r\n\r\n";
    let resp = parse_response(raw, false).unwrap().unwrap();
    assert_eq!(resp.headers.len(), 4);
    assert_eq!(resp.headers.get_all(b"SET-COOKIE"), vec![b"a=1".to_vec(), b"b=2".to_vec()]);
    assert_eq!(resp.headers.get(b"x-other"), Some(b"y".to_vec()));
    assert_eq!(resp.headers.get(b"missing"), None);
}

#[test]
fn header_lookup_ignores_case() {
    let raw = b"HTTP/1.1 200 OK\r\nContent-Length: 3\r\n\r\nabc";
    let resp = parse_response(raw, false).unwrap().unwrap();
    assert_eq!(resp.headers.get(b"content-length"), resp.headers.get(b"Content-Length"));
    assert_eq!(resp.headers.get(b"CONTENT-LENGTH"), Some(b"3".to_vec()));
}

#[test]
fn line_without_colon_is_skipped() {
    let raw = b"HTTP/1.1 200 OK\r\nnot a header\r\nA: 1\r\n\r\n";
    let resp = parse_response(raw, true).unwrap().unwrap();
    assert_eq!(resp.headers.len(), 1);
    assert_eq!(resp.headers.get(b"a"), Some(b"1".to_vec()));
}

#[test]
fn invalid_content_length_reads_to_close() {
    let raw = b"HTTP/1.1 200 OK\r\nContent-Length: x\r\n\r\nabc";
    assert!(matches!(parse_response(raw, false), Ok(None)));
    let resp = parse_response(raw, true).unwrap().unwrap();
    assert_eq!(resp.body, b"abc".to_vec());
}

#[test]
fn status_below_one_hundred_is_malformed() {
    let raw = b"HTTP/1.1 099\r\n\r\n";
    assert!(matches!(parse_response(raw, true), Err(TransportError::MalformedStatusLine)));
    let raw = b"HTTP/1.1 000 X\r\n\r\n";
    assert!(matches!(parse_response(raw, true), Err(TransportError::MalformedStatusLine)));
    let raw = b"HTTP/1.1 100 Continue\r\n\r\n";
    assert_eq!(parse_response(raw, true).unwrap().unwrap().status, 100);
    let raw = b"HTTP/1.1 999\r\n\r\n";
    assert_eq!(parse_response(raw, true).unwrap().unwrap().status, 999);
}

#[test]
fn header_name_case_does_not_change_framing() {
    let a = b"HTTP/1.1 200 OK\r\nContent-Length: 2\r\n\r\nokXYZ";
    let b = b"HTTP/1.1 200 OK\r\ncontent-LENGTH: 2\r\n\r\nokXYZ";
    let ra = parse_response(a, false).unwrap().unwrap();
    let rb = parse_response(b, false).unwrap().unwrap();
    assert_eq!(ra.status, rb.status);
    assert_eq!(ra.body, rb.body);
    assert_eq!(rb.body, b"ok".to_vec());
    let c = b"HTTP/1.1 200 OK\r\nTRANSFER-encoding: chunked\r\n\r\n2\r\nok\r\n0\r\n\r\n";
    assert_eq!(parse_response(c, false).unwrap().unwrap().body, b"ok".to_vec());
}
