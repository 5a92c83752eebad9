//! The tagged errors that every call can surface.
use vstd::prelude::*;

verus! {

/// Every failure of the transport, as one tagged value.
#[derive(Debug, Clone)]
pub enum TransportError {
    /// The connection string has no supported scheme or no single `://`.
    InvalidAddress,
    /// The byte stream could not be opened.
    ConnectError(String),
    /// The key, certificate or CA of a TLS bundle could not be loaded.
    TlsConfigurationError(String),
    /// A read returned no bytes, or the stream failed mid-way.
    ConnectionLost,
    /// The status line carries no three-digit status code.
    MalformedStatusLine,
    /// A chunk size line is not hexadecimal, or the chunk stream ends early.
    ChunkedDecodeError,
    /// The connection closed before `Content-Length` bytes arrived.
    TruncatedBody,
    /// The body is not valid UTF-8.
    EncodingError,
    /// A concatenated object stream has unbalanced braces, or holds more
    /// than objects at its top level.
    MalformedStreamError,
    /// The server answered with a non-2xx status.
    RemoteError { status: u16, message: String },
}

impl PartialEq for TransportError {
    fn eq(&self, other: &TransportError) -> (r: bool) {
        match (self, other) {
            (TransportError::InvalidAddress, TransportError::InvalidAddress) => true,
            (TransportError::ConnectError(a), TransportError::ConnectError(b)) => a.eq(b),
            (
                TransportError::TlsConfigurationError(a),
                TransportError::TlsConfigurationError(b),
            ) => a.eq(b),
            (TransportError::ConnectionLost, TransportError::ConnectionLost) => true,
            (TransportError::MalformedStatusLine, TransportError::MalformedStatusLine) => true,
            (TransportError::ChunkedDecodeError, TransportError::ChunkedDecodeError) => true,
            (TransportError::TruncatedBody, TransportError::TruncatedBody) => true,
            (TransportError::EncodingError, TransportError::EncodingError) => true,
            (TransportError::MalformedStreamError, TransportError::MalformedStreamError) => true,
            (
                TransportError::RemoteError { status: s1, message: m1 },
                TransportError::RemoteError { status: s2, message: m2 },
            ) => *s1 == *s2 && m1.eq(m2),
            _ => false,
        }
    }
}

impl vstd::std_specs::cmp::PartialEqSpecImpl for TransportError {
    open spec fn obeys_eq_spec() -> bool {
        true
    }

    open spec fn eq_spec(&self, other: &TransportError) -> bool {
        match (self, other) {
            (TransportError::InvalidAddress, TransportError::InvalidAddress) => true,
            (TransportError::ConnectError(a), TransportError::ConnectError(b)) => a@ == b@,
            (
                TransportError::TlsConfigurationError(a),
                TransportError::TlsConfigurationError(b),
            ) => a@ == b@,
            (TransportError::ConnectionLost, TransportError::ConnectionLost) => true,
            (TransportError::MalformedStatusLine, TransportError::MalformedStatusLine) => true,
            (TransportError::ChunkedDecodeError, TransportError::ChunkedDecodeError) => true,
            (TransportError::TruncatedBody, TransportError::TruncatedBody) => true,
            (TransportError::EncodingError, TransportError::EncodingError) => true,
            (TransportError::MalformedStreamError, TransportError::MalformedStreamError) => true,
            (
                TransportError::RemoteError { status: s1, message: m1 },
                TransportError::RemoteError { status: s2, message: m2 },
            ) => s1 == s2 && m1@ == m2@,
            _ => false,
        }
    }
}

} // verus!
