use docker_transport::request::{build_request, push_decimal, Method};

#[test]
fn get_request_bytes() {
    let r = build_request(Method::Get, b"/containers/json?all=1", "localhost", b"", None);
    let expected = "GET /v1.24/containers/json?all=1 HTTP/1.1\r\nHost: localhost\r\nContent-Type: application/json\r\nAccept: application/json\r\nContent-Length: 0\r\n\r\n";
    assert_eq!(String::from_utf8(r).unwrap(), expected);
}

#[test]
fn post_request_with_archive_body() {
    let body = vec![0u8, 1, 2, 3, 4, 5, 6, 7, 8, 9, 10, 11];
    let r = build_request(Method::Post, b"/build", "h:1", &body, Some("application/x-tar"));
    let mut expected = b"POST /v1.24/build HTTP/1.1\r\nHost: h:1\r\nContent-Type: application/x-tar\r\nAccept: application/json\r\nContent-Length: 12\r\n\r\n".to_vec();
    expected.extend_from_slice(&body);
    assert_eq!(r, expected);
}

#[test]
fn method_tokens() {
    assert_eq!(Method::Get.token(), "GET");
    assert_eq!(Method::Post.token(), "POST");
    assert_eq!(Method::Put.token(), "PUT");
    assert_eq!(Method::Delete.token(), "DELETE");
    assert_eq!(Method::Head.token(), "HEAD");
}

#[test]
fn decimal_digits() {
    let mut out = Vec::new();
    push_decimal(&mut out, 0);
    push_decimal(&mut out, 1234567890);
    push_decimal(&mut out, u64::MAX);
    assert_eq!(String::from_utf8(out).unwrap(), "0123456789018446744073709551615");
}
