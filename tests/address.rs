use docker_transport::address::{resolve, Address};
use docker_transport::error::TransportError;

#[test]
fn unix_address_keeps_path() {
    match resolve("unix:///var/run/docker.sock") {
        Ok(Address::Unix { path }) => assert_eq!(path, "/var/run/docker.sock"),
        _ => panic!("expected a domain socket"),
    }
}

#[test]
fn tcp_address_keeps_host_and_port() {
    match resolve("tcp://127.0.0.1:2376") {
        Ok(Address::Tcp { host, port, tls }) => {
            assert_eq!(host, "127.0.0.1");
            assert_eq!(port, 2376);
            assert!(tls.is_none());
        }
        _ => panic!("expected a network endpoint"),
    }
}

#[test]
fn tcp_host_may_hold_colons() {
    match resolve("tcp://::1:80") {
        Ok(Address::Tcp { host, port, .. }) => {
            assert_eq!(host, "::1");
            assert_eq!(port, 80);
        }
        _ => panic!("expected a network endpoint"),
    }
}

#[test]
fn address_without_delimiter_is_invalid() {
    assert!(matches!(resolve("/var/run/docker.sock"), Err(TransportError::InvalidAddress)));
    assert!(matches!(resolve(""), Err(TransportError::InvalidAddress)));
}

#[test]
fn address_with_two_delimiters_is_invalid() {
    assert!(matches!(resolve("unix://a://b"), Err(TransportError::InvalidAddress)));
}

#[test]
fn unsupported_scheme_is_invalid() {
    assert!(matches!(resolve("http://localhost:80"), Err(TransportError::InvalidAddress)));
    assert!(matches!(resolve("://x"), Err(TransportError::InvalidAddress)));
}

#[test]
fn empty_location_is_invalid() {
    assert!(matches!(resolve("unix://"), Err(TransportError::InvalidAddress)));
}

#[test]
fn tcp_without_valid_port_is_invalid() {
    assert!(matches!(resolve("tcp://localhost"), Err(TransportError::InvalidAddress)));
    assert!(matches!(resolve("tcp://localhost:"), Err(TransportError::InvalidAddress)));
    assert!(matches!(resolve("tcp://localhost:65536"), Err(TransportError::InvalidAddress)));
    assert!(matches!(resolve("tcp://localhost:80a"), Err(TransportError::InvalidAddress)));
    assert!(matches!(resolve("tcp://:80"), Err(TransportError::InvalidAddress)));
}

#[test]
fn tcp_largest_port() {
    match resolve("tcp://h:65535") {
        Ok(Address::Tcp { port, .. }) => assert_eq!(port, 65535),
        _ => panic!("expected a network endpoint"),
    }
}
