use docker_transport::error::TransportError;
use docker_transport::repair::repair_stream;

#[test]
fn repair_two_objects() {
    assert_eq!(repair_stream(b"{\"a\":1}{\"b\":2}").unwrap(), b"[{\"a\":1},{\"b\":2}]".to_vec());
}

#[test]
fn repair_braces_inside_strings() {
    assert_eq!(
        repair_stream(b"{\"s\":\"}{\"}{\"b\":2}").unwrap(),
        b"[{\"s\":\"}{\"},{\"b\":2}]".to_vec()
    );
}

#[test]
fn repair_escaped_quote_inside_string() {
    assert_eq!(
        repair_stream(b"{\"s\":\"a\\\"}{\"}{}").unwrap(),
        b"[{\"s\":\"a\\\"}{\"},{}]".to_vec()
    );
}

#[test]
fn repair_empty_input() {
    assert_eq!(repair_stream(b"").unwrap(), b"[]".to_vec());
}

#[test]
fn repair_single_object_and_nesting() {
    assert_eq!(repair_stream(b"{\"a\":{\"b\":{}}}").unwrap(), b"[{\"a\":{\"b\":{}}}]".to_vec());
}

#[test]
fn repair_keeps_whitespace_between_objects() {
    assert_eq!(repair_stream(b"{}\n{}\n").unwrap(), b"[{},\n{}\n]".to_vec());
}

#[test]
fn repair_unbalanced_input() {
    assert!(matches!(repair_stream(b"{\"a\":1"), Err(TransportError::MalformedStreamError)));
    assert!(matches!(repair_stream(b"{\"a\":1}}"), Err(TransportError::MalformedStreamError)));
    assert!(matches!(repair_stream(b"{\"a\":\"1}"), Err(TransportError::MalformedStreamError)));
}

#[test]
fn repair_rejects_top_level_values() {
    assert!(matches!(repair_stream(b"[1]"), Err(TransportError::MalformedStreamError)));
}

#[test]
fn repair_leading_whitespace_gets_no_comma() {
    assert_eq!(repair_stream(b" {}").unwrap(), b"[ {}]".to_vec());
    assert_eq!(repair_stream(b"  ").unwrap(), b"[  ]".to_vec());
}
