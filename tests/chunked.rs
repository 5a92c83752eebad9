use docker_transport::chunked::{decode_chunked, ChunkedBody};

fn encode(chunks: &[&[u8]]) -> Vec<u8> {
    let mut out = Vec::new();
    for c in chunks {
        out.extend_from_slice(format!("{:x}\r\n", c.len()).as_bytes());
        out.extend_from_slice(c);
        out.extend_from_slice(b"\r\n");
    }
    out.extend_from_slice(b"0\r\n\r\n");
    out
}

#[test]
fn chunked_round_trip() {
    let payload: Vec<u8> = (0..=255u8).cycle().take(700).collect();
    let chunks: Vec<&[u8]> = payload.chunks(33).collect();
    let wire = encode(&chunks);
    match decode_chunked(&wire, 0) {
        ChunkedBody::Complete { body, end } => {
            assert_eq!(body, payload);
            assert_eq!(end, wire.len());
        }
        _ => panic!("expected a complete body"),
    }
}

#[test]
fn chunked_upper_case_size() {
    let mut wire = b"1A\r\n".to_vec();
    wire.extend_from_slice(&[7u8; 26]);
    wire.extend_from_slice(b"\r\n0\r\n\r\n");
    match decode_chunked(&wire, 0) {
        ChunkedBody::Complete { body, .. } => assert_eq!(body, vec![7u8; 26]),
        _ => panic!("expected a complete body"),
    }
}

#[test]
fn chunked_empty_stream() {
    match decode_chunked(b"0\r\n\r\n", 0) {
        ChunkedBody::Complete { body, end } => {
            assert!(body.is_empty());
            assert_eq!(end, 5);
        }
        _ => panic!("expected a complete body"),
    }
}

#[test]
fn chunked_truncated_is_incomplete() {
    let wire = encode(&[b"hello", b"world"]);
    for cut in 0..wire.len() {
        assert!(matches!(decode_chunked(&wire[..cut], 0), ChunkedBody::Incomplete), "cut {}", cut);
    }
}

#[test]
fn chunked_bad_size_is_malformed() {
    assert!(matches!(decode_chunked(b"zz\r\nab\r\n0\r\n\r\n", 0), ChunkedBody::Malformed));
    assert!(matches!(decode_chunked(b"2\r\nabXY0\r\n\r\n", 0), ChunkedBody::Malformed));
    assert!(matches!(decode_chunked(b"2;x\r\nab\r\n0\r\n\r\n", 0), ChunkedBody::Malformed));
}

#[test]
fn chunked_size_too_long_is_malformed() {
    assert!(matches!(decode_chunked(b"0000000000000001\r\na\r\n0\r\n\r\n", 0), ChunkedBody::Malformed));
}
