//! The Request Builder: the exact bytes of one HTTP/1.1 request.
use vstd::prelude::*;
use vstd::string::StringSliceAdditionalSpecFns;

verus! {

/// The version prefix put before every endpoint path.
pub const API_PREFIX: &'static str = "/v1.24";

/// The content type of JSON bodies, sent unless the caller names another.
pub const JSON_TYPE: &'static str = "application/json";

/// The HTTP methods the engine's endpoints use.
#[derive(Clone, Copy, Debug, PartialEq, Eq, Structural)]
pub enum Method {
    Get,
    Post,
    Put,
    Delete,
    Head,
}

pub open spec fn method_token(m: Method) -> Seq<u8> {
    match m {
        Method::Get => "GET".spec_bytes(),
        Method::Post => "POST".spec_bytes(),
        Method::Put => "PUT".spec_bytes(),
        Method::Delete => "DELETE".spec_bytes(),
        Method::Head => "HEAD".spec_bytes(),
    }
}

impl Method {
    /// The method's name on the request line.
    pub fn token(&self) -> (r: &'static str)
        ensures
            r.spec_bytes() == method_token(*self),
    {
        match self {
            Method::Get => "GET",
            Method::Post => "POST",
            Method::Put => "PUT",
            Method::Delete => "DELETE",
            Method::Head => "HEAD",
        }
    }
}

/// `n` in decimal digits, without leading zeros.
pub open spec fn decimal_bytes(n: nat) -> Seq<u8>
    decreases n,
{
    if n < 10 {
        seq![(48 + n) as u8]
    } else {
        decimal_bytes(n / 10).push((48 + n % 10) as u8)
    }
}

/// Appends the decimal digits of `n`.
pub fn push_decimal(out: &mut Vec<u8>, n: u64)
    ensures
        final(out)@ == old(out)@ + decimal_bytes(n as nat),
    decreases n,
{
    if n >= 10 {
        push_decimal(out, n / 10);
    }
    out.push((48 + n % 10) as u8);
    proof {
        if n < 10 {
            assert(final(out)@ =~= old(out)@ + decimal_bytes(n as nat));
        } else {
            assert(final(out)@ =~= old(out)@ + decimal_bytes(n as nat));
        }
    }
}

/// Appends every byte of `s`.
pub fn push_bytes(out: &mut Vec<u8>, s: &[u8])
    ensures
        final(out)@ == old(out)@ + s@,
{
    let ghost start = out@;
    let mut i: usize = 0;
    while i < s.len()
        invariant
            i <= s@.len(),
            out@ == start + s@.subrange(0, i as int),
        decreases s@.len() - i,
    {
        out.push(s[i]);
        proof {
            assert(s@.subrange(0, i + 1) =~= s@.subrange(0, i as int).push(s@[i as int]));
            assert(out@ =~= start + s@.subrange(0, i + 1));
        }
        i = i + 1;
    }
    proof {
        assert(s@.subrange(0, s@.len() as int) =~= s@);
    }
}

pub open spec fn crlf() -> Seq<u8> {
    seq![13u8, 10u8]
}

/// The bytes of a request: request line with the version prefix before
/// `path`, then `Host`, `Content-Type`, `Accept` and `Content-Length`
/// headers, a blank line and the body.
pub open spec fn request_bytes(
    method: Method,
    path: Seq<u8>,
    host: Seq<u8>,
    content_type: Seq<u8>,
    body: Seq<u8>,
) -> Seq<u8> {
    method_token(method) + " ".spec_bytes() + API_PREFIX.spec_bytes() + path
        + " HTTP/1.1".spec_bytes() + crlf() + "Host: ".spec_bytes() + host + crlf()
        + "Content-Type: ".spec_bytes() + content_type + crlf() + "Accept: ".spec_bytes()
        + JSON_TYPE.spec_bytes() + crlf() + "Content-Length: ".spec_bytes() + decimal_bytes(
        body.len(),
    ) + crlf() + crlf() + body
}

/// The content type that a request carries: the caller's, or JSON.
pub open spec fn effective_type(content_type: Option<Seq<u8>>) -> Seq<u8> {
    match content_type {
        Some(t) => t,
        None => JSON_TYPE.spec_bytes(),
    }
}

/// Builds the bytes of one request. `path` holds the query string, which
/// is sent as it is given; `content_type` replaces JSON for binary bodies.
pub fn build_request(
    method: Method,
    path: &[u8],
    host: &str,
    body: &[u8],
    content_type: Option<&str>,
) -> (r: Vec<u8>)
    ensures
        r@ == request_bytes(
            method,
            path@,
            host.spec_bytes(),
            effective_type(
                match content_type {
                    Some(t) => Some(t.spec_bytes()),
                    None => None,
                },
            ),
            body@,
        ),
{
    let mut out: Vec<u8> = Vec::new();
    push_bytes(&mut out, method.token().as_bytes());
    push_bytes(&mut out, " ".as_bytes());
    push_bytes(&mut out, API_PREFIX.as_bytes());
    push_bytes(&mut out, path);
    push_bytes(&mut out, " HTTP/1.1".as_bytes());
    out.push(13u8);
    out.push(10u8);
    push_bytes(&mut out, "Host: ".as_bytes());
    push_bytes(&mut out, host.as_bytes());
    out.push(13u8);
    out.push(10u8);
    push_bytes(&mut out, "Content-Type: ".as_bytes());
    match content_type {
        Some(t) => push_bytes(&mut out, t.as_bytes()),
        None => push_bytes(&mut out, JSON_TYPE.as_bytes()),
    }
    out.push(13u8);
    out.push(10u8);
    push_bytes(&mut out, "Accept: ".as_bytes());
    push_bytes(&mut out, JSON_TYPE.as_bytes());
    out.push(13u8);
    out.push(10u8);
    push_bytes(&mut out, "Content-Length: ".as_bytes());
    push_decimal(&mut out, body.len() as u64);
    out.push(13u8);
    out.push(10u8);
    out.push(13u8);
    out.push(10u8);
    push_bytes(&mut out, body);
    proof {
        assert(out@ =~= request_bytes(
            method,
            path@,
            host.spec_bytes(),
            effective_type(
                match content_type {
                    Some(t) => Some(t.spec_bytes()),
                    None => None,
                },
            ),
            body@,
        ));
    }
    out
}

} // verus!
