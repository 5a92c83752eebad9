//! The Call Dispatcher's decisions: endpoint paths, body decoding and the
//! classification of a response by its status.
use vstd::prelude::*;
use vstd::string::StringSliceAdditionalSpecFns;
use vstd::utf8::{decode_utf8, valid_utf8};
use crate::error::TransportError;
use crate::repair::{repair_spec, repair_stream};
use crate::request::push_bytes;
use crate::response::Response;

verus! {

/// The member `key` of the JSON object written in `text`, when that member
/// is a JSON string.
pub uninterp spec fn json_string_member(text: Seq<char>, key: Seq<char>) -> Option<Seq<char>>;

/// Relies on serde_json::from_str to read `text` as a JSON object and on
/// serde_json::Map::get to find its member `key`; the result is that
/// member's text when it is a JSON string.
#[verifier::external_body]
fn string_member(text: &str, key: &str) -> (r: Option<String>)
    ensures
        match r {
            Some(m) => json_string_member(text@, key@) == Some(m@),
            None => json_string_member(text@, key@) is None,
        },
{
    match serde_json::from_str::<serde_json::Map<String, serde_json::Value>>(text) {
        Ok(obj) => match obj.get(key) {
            Some(serde_json::Value::String(m)) => Some(m.clone()),
            _ => None,
        },
        Err(_) => None,
    }
}

/// Relies on String::from_utf8: it fails exactly when the bytes are not
/// UTF-8, and otherwise the string holds the characters they encode.
#[verifier::external_body]
fn utf8_string(bytes: Vec<u8>) -> (r: Option<String>)
    ensures
        r is Some <==> valid_utf8(bytes@),
        r matches Some(s) ==> s@ == decode_utf8(bytes@),
{
    String::from_utf8(bytes).ok()
}

pub open spec fn is_success(status: u16) -> bool {
    200 <= status < 300
}

/// `r` succeeded with the text `t`.
pub open spec fn ok_with(r: Result<String, TransportError>, t: Seq<char>) -> bool {
    match r {
        Ok(b) => b@ == t,
        Err(_) => false,
    }
}

/// `r` is the `RemoteError` of `status` with `message`.
pub open spec fn remote_error(r: Result<String, TransportError>, status: u16, message: Seq<char>) -> bool {
    match r {
        Err(TransportError::RemoteError { status: s, message: m }) => s == status && m@ == message,
        _ => false,
    }
}

/// What a failed call reports: the `message` member of the JSON body, or
/// the whole body when it has none.
pub open spec fn reported_message(text: Seq<char>) -> Seq<char> {
    match json_string_member(text, "message"@) {
        Some(t) => t,
        None => text,
    }
}

/// The body as text, or `EncodingError` when it is not UTF-8.
pub fn decode_body(body: Vec<u8>) -> (r: Result<String, TransportError>)
    ensures
        match r {
            Ok(s) => valid_utf8(body@) && s@ == decode_utf8(body@),
            Err(e) => !valid_utf8(body@) && e == TransportError::EncodingError,
        },
{
    match utf8_string(body) {
        Some(s) => Ok(s),
        None => Err(TransportError::EncodingError),
    }
}

/// Classifies a response whose `message` member has been read already:
/// a 2xx status passes the body on, any other status is a `RemoteError`
/// carrying the message, or the whole body when there is none.
pub fn classify_status(status: u16, body: String, message: Option<String>) -> (r: Result<
    String,
    TransportError,
>)
    ensures
        is_success(status) ==> ok_with(r, body@),
        !is_success(status) ==> remote_error(
            r,
            status,
            match message {
                Some(t) => t@,
                None => body@,
            },
        ),
{
    if 200 <= status && status < 300 {
        Ok(body)
    } else {
        match message {
            Some(m) => Err(TransportError::RemoteError { status, message: m }),
            None => Err(TransportError::RemoteError { status, message: body }),
        }
    }
}

/// Classifies a response by its status: a 2xx status passes the body on;
/// any other is a `RemoteError` with the `message` member of the JSON body,
/// or with the whole body when it has none.
pub fn classify(status: u16, body: String) -> (r: Result<String, TransportError>)
    ensures
        is_success(status) ==> ok_with(r, body@),
        !is_success(status) ==> remote_error(r, status, reported_message(body@)),
{
    if 200 <= status && status < 300 {
        return Ok(body);
    }
    let message = string_member(body.as_str(), "message");
    classify_status(status, body, message)
}

/// The outcome of a call from its parsed response: the body as text on a
/// 2xx status, a `RemoteError` otherwise.
pub fn finish_call(resp: Response) -> (r: Result<String, TransportError>)
    ensures
        !valid_utf8(resp.body@) ==> r == Err::<String, TransportError>(TransportError::EncodingError),
        valid_utf8(resp.body@) && is_success(resp.status) ==> ok_with(r, decode_utf8(resp.body@)),
        valid_utf8(resp.body@) && !is_success(resp.status) ==> remote_error(
            r,
            resp.status,
            reported_message(decode_utf8(resp.body@)),
        ),
{
    let status = resp.status;
    let text = decode_body(resp.body)?;
    classify(status, text)
}

/// The error of a call that did not succeed: `EncodingError` when the body
/// is not UTF-8, else a `RemoteError` with the message the body reports.
pub fn remote_failure(status: u16, body: Vec<u8>) -> (e: TransportError)
    requires
        !is_success(status),
    ensures
        !valid_utf8(body@) ==> e == TransportError::EncodingError,
        valid_utf8(body@) ==> remote_error(Err(e), status, reported_message(decode_utf8(body@))),
{
    match decode_body(body) {
        Err(e) => e,
        Ok(text) => match string_member(text.as_str(), "message") {
            Some(m) => TransportError::RemoteError { status, message: m },
            None => TransportError::RemoteError { status, message: text },
        },
    }
}

/// Like `finish_call`, for endpoints that stream objects back to back: the
/// body is checked to be UTF-8 first, then, on a 2xx status, repaired into
/// one JSON array.
pub fn finish_stream_call(resp: Response) -> (r: Result<String, TransportError>)
    ensures
        !valid_utf8(resp.body@) ==> r == Err::<String, TransportError>(TransportError::EncodingError),
        valid_utf8(resp.body@) && is_success(resp.status) ==> match repair_spec(resp.body@) {
            Err(e) => r == Err::<String, TransportError>(e),
            Ok(a) => if valid_utf8(a) {
                ok_with(r, decode_utf8(a))
            } else {
                r == Err::<String, TransportError>(TransportError::EncodingError)
            },
        },
        valid_utf8(resp.body@) && !is_success(resp.status) ==> remote_error(
            r,
            resp.status,
            reported_message(decode_utf8(resp.body@)),
        ),
{
    if !(200 <= resp.status && resp.status < 300) {
        return Err(remote_failure(resp.status, resp.body));
    }
    let checked = decode_body(resp.body.clone());
    if let Err(e) = checked {
        return Err(e);
    }
    let array = repair_stream(resp.body.as_slice())?;
    decode_body(array)
}

/// The outcome of a call whose answer is raw bytes: the body unchanged on
/// a 2xx status, with no UTF-8 decoding; the failure of the call otherwise.
pub fn finish_binary_call(resp: Response) -> (r: Result<Vec<u8>, TransportError>)
    ensures
        is_success(resp.status) ==> (r matches Ok(b) && b@ == resp.body@),
        !is_success(resp.status) && !valid_utf8(resp.body@) ==> r == Err::<Vec<u8>, TransportError>(
            TransportError::EncodingError,
        ),
        !is_success(resp.status) && valid_utf8(resp.body@) ==> (r matches Err(e) && remote_error(
            Err(e),
            resp.status,
            reported_message(decode_utf8(resp.body@)),
        )),
{
    if 200 <= resp.status && resp.status < 300 {
        Ok(resp.body)
    } else {
        Err(remote_failure(resp.status, resp.body))
    }
}

/// Whether the client's connection can carry further calls.
#[derive(Clone, Copy, Debug, PartialEq, Eq, Structural)]
pub enum Link {
    Open,
    Lost,
}

/// A call may go out only on an open connection; on a lost one it fails
/// at once with `ConnectionLost`.
pub fn check_link(link: Link) -> (r: Result<(), TransportError>)
    ensures
        link == Link::Open <==> r is Ok,
        r matches Err(e) ==> e == TransportError::ConnectionLost,
{
    match link {
        Link::Open => Ok(()),
        Link::Lost => Err(TransportError::ConnectionLost),
    }
}

/// The connection after a call: lost once the peer has closed it or the
/// call ended in `ConnectionLost`, open otherwise. Nothing reopens it.
pub fn link_after(link: Link, closed: bool, failure: Option<&TransportError>) -> (r: Link)
    ensures
        r == Link::Open <==> (link == Link::Open && !closed && !(failure matches Some(
            TransportError::ConnectionLost,
        ))),
{
    match (link, closed, failure) {
        (Link::Lost, _, _) => Link::Lost,
        (_, true, _) => Link::Lost,
        (_, _, Some(TransportError::ConnectionLost)) => Link::Lost,
        _ => Link::Open,
    }
}

/// `"1"` or `"0"` for a flag in a query string.
pub open spec fn flag_text(b: bool) -> Seq<u8> {
    if b {
        "1".spec_bytes()
    } else {
        "0".spec_bytes()
    }
}

fn push_flag(out: &mut Vec<u8>, b: bool)
    ensures
        final(out)@ == old(out)@ + flag_text(b),
{
    if b {
        push_bytes(out, "1".as_bytes());
    } else {
        push_bytes(out, "0".as_bytes());
    }
}

/// The path that lists containers, stopped ones too when `all` holds.
pub fn containers_path(all: bool) -> (r: Vec<u8>)
    ensures
        r@ == "/containers/json?all=".spec_bytes() + flag_text(all) + "&size=1".spec_bytes(),
{
    let mut out: Vec<u8> = Vec::new();
    push_bytes(&mut out, "/containers/json?all=".as_bytes());
    push_flag(&mut out, all);
    push_bytes(&mut out, "&size=1".as_bytes());
    proof {
        assert(out@ =~= "/containers/json?all=".spec_bytes() + flag_text(all) + "&size=1".spec_bytes());
    }
    out
}

/// The path that lists images, intermediate ones too when `all` holds.
pub fn images_path(all: bool) -> (r: Vec<u8>)
    ensures
        r@ == "/images/json?all=".spec_bytes() + flag_text(all),
{
    let mut out: Vec<u8> = Vec::new();
    push_bytes(&mut out, "/images/json?all=".as_bytes());
    push_flag(&mut out, all);
    out
}

/// The path `/containers/<id>/<action>`.
pub fn container_path(id: &str, action: &str) -> (r: Vec<u8>)
    ensures
        r@ == "/containers/".spec_bytes() + id.spec_bytes() + "/".spec_bytes() + action.spec_bytes(),
{
    let mut out: Vec<u8> = Vec::new();
    push_bytes(&mut out, "/containers/".as_bytes());
    push_bytes(&mut out, id.as_bytes());
    push_bytes(&mut out, "/".as_bytes());
    push_bytes(&mut out, action.as_bytes());
    proof {
        assert(out@ =~= "/containers/".spec_bytes() + id.spec_bytes() + "/".spec_bytes()
            + action.spec_bytes());
    }
    out
}

/// The path `/networks/<id_or_name>`.
pub fn network_path(id_or_name: &str) -> (r: Vec<u8>)
    ensures
        r@ == "/networks/".spec_bytes() + id_or_name.spec_bytes(),
{
    let mut out: Vec<u8> = Vec::new();
    push_bytes(&mut out, "/networks/".as_bytes());
    push_bytes(&mut out, id_or_name.as_bytes());
    out
}

/// The query of the events path: `since=…` and `until=…`, joined by `&`,
/// each present when given.
pub open spec fn events_query(since: Option<Seq<u8>>, until: Option<Seq<u8>>) -> Seq<u8> {
    let first = match since {
        Some(s) => "since=".spec_bytes() + s,
        None => Seq::empty(),
    };
    match until {
        Some(u) => if first.len() > 0 {
            first + "&".spec_bytes() + "until=".spec_bytes() + u
        } else {
            "until=".spec_bytes() + u
        },
        None => first,
    }
}

pub open spec fn opt_bytes(s: Option<&str>) -> Option<Seq<u8>> {
    match s {
        Some(t) => Some(t.spec_bytes()),
        None => None,
    }
}

/// The path that reads events, bounded by `since` and `until` when given.
pub fn events_path(since: Option<&str>, until: Option<&str>) -> (r: Vec<u8>)
    ensures
        ({
            let q = events_query(opt_bytes(since), opt_bytes(until));
            r@ == if q.len() > 0 {
                "/events".spec_bytes() + "?".spec_bytes() + q
            } else {
                "/events".spec_bytes()
            }
        }),
{
    let mut options: Vec<u8> = Vec::new();
    if let Some(s) = since {
        push_bytes(&mut options, "since=".as_bytes());
        push_bytes(&mut options, s.as_bytes());
    }
    if let Some(u) = until {
        if options.len() > 0 {
            push_bytes(&mut options, "&".as_bytes());
        }
        push_bytes(&mut options, "until=".as_bytes());
        push_bytes(&mut options, u.as_bytes());
    }
    proof {
        let first = match opt_bytes(since) {
            Some(s) => "since=".spec_bytes() + s,
            None => Seq::empty(),
        };
        assert(since is None ==> first =~= Seq::<u8>::empty());
        assert(options@ =~= events_query(opt_bytes(since), opt_bytes(until)));
    }
    let mut url: Vec<u8> = Vec::new();
    push_bytes(&mut url, "/events".as_bytes());
    if options.len() > 0 {
        push_bytes(&mut url, "?".as_bytes());
        push_bytes(&mut url, options.as_slice());
    }
    proof {
        let q = events_query(opt_bytes(since), opt_bytes(until));
        if q.len() > 0 {
            assert(url@ =~= "/events".spec_bytes() + "?".spec_bytes() + q);
        } else {
            assert(url@ =~= "/events".spec_bytes());
        }
    }
    url
}

/// The `Id` member of the answer to a network creation.
pub fn created_id(body: &str) -> (r: Option<String>)
    ensures
        match r {
            Some(id) => json_string_member(body@, "Id"@) == Some(id@),
            None => json_string_member(body@, "Id"@) is None,
        },
{
    string_member(body, "Id")
}

} // verus!
