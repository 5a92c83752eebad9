use docker_transport::dispatch::{
    classify, classify_status, container_path, containers_path, created_id, decode_body,
    check_link, events_path, finish_binary_call, finish_call, finish_stream_call, images_path,
    link_after, network_path, remote_failure, Link,
};
use docker_transport::error::TransportError;
use docker_transport::response::parse_response;

#[test]
fn success_passes_body() {
    for status in [200u16, 201, 204, 299] {
        assert_eq!(classify(status, "{\"Id\":\"x\"}".to_string()), Ok("{\"Id\":\"x\"}".to_string()));
    }
}

#[test]
fn not_found_carries_message() {
    assert_eq!(
        classify(404, "{\"message\":\"not found\"}".to_string()),
        Err(TransportError::RemoteError { status: 404, message: "not found".to_string() })
    );
}

#[test]
fn non_json_error_carries_raw_body() {
    assert_eq!(
        classify(500, "oops".to_string()),
        Err(TransportError::RemoteError { status: 500, message: "oops".to_string() })
    );
    assert_eq!(
        classify(300, "{\"other\":1}".to_string()),
        Err(TransportError::RemoteError { status: 300, message: "{\"other\":1}".to_string() })
    );
}

#[test]
fn classify_with_known_message() {
    assert_eq!(
        classify_status(409, "body".to_string(), Some("conflict".to_string())),
        Err(TransportError::RemoteError { status: 409, message: "conflict".to_string() })
    );
    assert_eq!(
        classify_status(199, "body".to_string(), None),
        Err(TransportError::RemoteError { status: 199, message: "body".to_string() })
    );
    assert_eq!(classify_status(250, "body".to_string(), Some("m".to_string())), Ok("body".to_string()));
}

#[test]
fn invalid_utf8_is_encoding_error() {
    assert_eq!(decode_body(vec![0xff, 0xfe]), Err(TransportError::EncodingError));
    assert_eq!(decode_body("héllo".as_bytes().to_vec()), Ok("héllo".to_string()));
}

#[test]
fn finish_call_from_response() {
    let raw = b"HTTP/1.1 404 Not Found\r\nContent-Length: 23\r\n\r\n{\"message\":\"not found\"}";
    let resp = parse_response(raw, false).unwrap().unwrap();
    assert_eq!(
        finish_call(resp),
        Err(TransportError::RemoteError { status: 404, message: "not found".to_string() })
    );
    let raw = b"HTTP/1.1 200 OK\r\nContent-Length: 2\r\n\r\n[]";
    let resp = parse_response(raw, false).unwrap().unwrap();
    assert_eq!(finish_call(resp), Ok("[]".to_string()));
}

#[test]
fn finish_stream_call_repairs() {
    let raw = b"HTTP/1.1 200 OK\r\n\r\n{\"status\":\"a\"}{\"status\":\"b\"}";
    let resp = parse_response(raw, true).unwrap().unwrap();
    assert_eq!(
        finish_stream_call(resp),
        Ok("[{\"status\":\"a\"},{\"status\":\"b\"}]".to_string())
    );
    let raw = b"HTTP/1.1 200 OK\r\n\r\n{\"status\":";
    let resp = parse_response(raw, true).unwrap().unwrap();
    assert_eq!(finish_stream_call(resp), Err(TransportError::MalformedStreamError));
}

#[test]
fn endpoint_paths() {
    assert_eq!(containers_path(true), b"/containers/json?all=1&size=1".to_vec());
    assert_eq!(containers_path(false), b"/containers/json?all=0&size=1".to_vec());
    assert_eq!(images_path(true), b"/images/json?all=1".to_vec());
    assert_eq!(images_path(false), b"/images/json?all=0".to_vec());
    assert_eq!(container_path("abc", "top"), b"/containers/abc/top".to_vec());
    assert_eq!(network_path("net1"), b"/networks/net1".to_vec());
}

#[test]
fn events_query_combinations() {
    assert_eq!(events_path(None, None), b"/events".to_vec());
    assert_eq!(events_path(Some("10"), None), b"/events?since=10".to_vec());
    assert_eq!(events_path(None, Some("20")), b"/events?until=20".to_vec());
    assert_eq!(events_path(Some("10"), Some("20")), b"/events?since=10&until=20".to_vec());
}

#[test]
fn created_network_id() {
    assert_eq!(created_id("{\"Id\":\"abc\",\"Warning\":\"\"}"), Some("abc".to_string()));
    assert_eq!(created_id("{\"message\":\"exists\"}"), None);
    assert_eq!(created_id("not json"), None);
}

#[test]
fn stream_call_checks_encoding_first() {
    let mut raw = b"HTTP/1.1 200 OK\r\n\r\n{\"a\":\"".to_vec();
    raw.push(0xff);
    let resp = parse_response(&raw, true).unwrap().unwrap();
    assert_eq!(finish_stream_call(resp), Err(TransportError::EncodingError));
}

#[test]
fn binary_call_keeps_bytes() {
    let raw = b"HTTP/1.1 200 OK\r\nContent-Length: 3\r\n\r\n\xff\x00\x01";
    let resp = parse_response(raw, false).unwrap().unwrap();
    assert_eq!(finish_binary_call(resp), Ok(vec![0xffu8, 0, 1]));
    let raw = b"HTTP/1.1 500 Error\r\nContent-Length: 17\r\n\r\n{\"message\":\"bad\"}";
    let resp = parse_response(raw, false).unwrap().unwrap();
    assert_eq!(
        finish_binary_call(resp),
        Err(TransportError::RemoteError { status: 500, message: "bad".to_string() })
    );
}

#[test]
fn failure_of_a_call() {
    assert_eq!(remote_failure(404, vec![0xff]), TransportError::EncodingError);
    assert_eq!(
        remote_failure(503, b"busy".to_vec()),
        TransportError::RemoteError { status: 503, message: "busy".to_string() }
    );
}

#[test]
fn link_is_lost_for_good() {
    assert_eq!(check_link(Link::Open), Ok(()));
    assert_eq!(check_link(Link::Lost), Err(TransportError::ConnectionLost));
    assert_eq!(link_after(Link::Open, false, None), Link::Open);
    assert_eq!(link_after(Link::Open, false, Some(&TransportError::TruncatedBody)), Link::Open);
    assert_eq!(link_after(Link::Open, true, None), Link::Lost);
    assert_eq!(link_after(Link::Open, false, Some(&TransportError::ConnectionLost)), Link::Lost);
    assert_eq!(link_after(Link::Lost, false, None), Link::Lost);
}
