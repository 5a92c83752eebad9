//! Parsing of raw response bytes: status line, headers and a body framed
//! by chunked transfer, by `Content-Length`, or by the connection closing.
use vstd::prelude::*;
use crate::bytes::{
    copy_range, crlf_at, decimal_value, digit_value, find_byte, find_crlf, first_byte, first_crlf, is_digit,
    hex_value, lower_byte, lower_byte_exec, lower_bytes,
};
use crate::chunked::{
    concat_chunks, decode_chunked, dechunk_from, encode_chunks, hex_run, lemma_round_trip_from,
    lemma_truncated_from, valid_chunk, ChunkedBody, Dechunked, MAX_SIZE_DIGITS,
};
use crate::error::TransportError;
use crate::headers::{lemma_case_blind_lists, values_named, HeaderMap};

verus! {

/// A Content-Length of more digits than this is not taken as a length.
pub const MAX_LENGTH_DIGITS: usize = 18;

/// The first `i >= from` where the blank line `\r\n\r\n` starts, or the
/// length of `s`.
pub open spec fn first_blank_line(s: Seq<u8>, from: int) -> int
    decreases s.len() - from,
{
    if from < 0 || from >= s.len() {
        s.len() as int
    } else if crlf_at(s, from) && crlf_at(s, from + 2) {
        from
    } else {
        first_blank_line(s, from + 1)
    }
}

pub open spec fn is_space(b: u8) -> bool {
    b == 32u8 || b == 9u8
}

/// The first index in `[from, to)` that does not hold a space or a tab, or `to`.
pub open spec fn skip_space(s: Seq<u8>, from: int, to: int) -> int
    decreases to - from,
{
    if from < 0 || from >= to || from >= s.len() {
        to
    } else if is_space(s[from]) {
        skip_space(s, from + 1, to)
    } else {
        from
    }
}

/// The end of `s[from..to]` once trailing spaces and tabs are dropped.
pub open spec fn trim_end(s: Seq<u8>, from: int, to: int) -> int
    decreases to - from,
{
    if to <= from || to > s.len() {
        if to < from { from } else { to }
    } else if is_space(s[to - 1]) {
        trim_end(s, from, to - 1)
    } else {
        to
    }
}

/// The header in the line `s[a..b]`: the name before the first colon and
/// the value after it, without surrounding spaces or tabs. A line without
/// a colon carries no header.
pub open spec fn header_of_line(s: Seq<u8>, a: int, b: int) -> Seq<(Seq<u8>, Seq<u8>)> {
    let colon = first_byte(s, a, b, 58u8);
    if colon >= b {
        Seq::empty()
    } else {
        let vs = skip_space(s, colon + 1, b);
        let ve = trim_end(s, vs, b);
        seq![(s.subrange(a, colon), s.subrange(vs, ve))]
    }
}

/// The headers of the lines from `pos` up to the line that ends at `h`.
pub open spec fn header_lines(s: Seq<u8>, pos: int, h: int) -> Seq<(Seq<u8>, Seq<u8>)>
    decreases h + 1 - pos,
{
    if pos < 0 || pos > h {
        Seq::empty()
    } else {
        let found = first_crlf(s, pos);
        let i = if found < pos {
            pos
        } else if found > h {
            h
        } else {
            found
        };
        if i >= h {
            header_of_line(s, pos, h)
        } else {
            header_of_line(s, pos, i) + header_lines(s, i + 2, h)
        }
    }
}

/// The status code of the status line `s[0..l]`: the three digits that
/// follow the first space, ended by a space or by the end of the line,
/// the first of them not zero, so that the code lies in 100..=999.
pub open spec fn status_of_line(s: Seq<u8>, l: int) -> Option<u16> {
    let sp = first_byte(s, 0, l, 32u8);
    if sp + 3 < l + 0 && is_digit(s[sp + 1]) && s[sp + 1] != 48u8 && is_digit(s[sp + 2]) && is_digit(s[sp + 3]) && (
    sp + 4 == l || s[sp + 4] == 32u8) {
        Some((digit_value(s[sp + 1]) * 100 + digit_value(s[sp + 2]) * 10 + digit_value(
            s[sp + 3],
        )) as u16)
    } else {
        None
    }
}

pub open spec fn chunked_word() -> Seq<u8> {
    seq![99u8, 104u8, 117u8, 110u8, 107u8, 101u8, 100u8]
}

/// `v` holds the word `chunked`, in any ASCII case.
pub open spec fn mentions_chunked(v: Seq<u8>) -> bool {
    exists|j: int| 0 <= j && j + 7 <= v.len() && #[trigger] lower_bytes(v).subrange(j, j + 7) == chunked_word()
}

/// Some value in `vs` holds the word `chunked`.
pub open spec fn any_chunked(vs: Seq<Seq<u8>>) -> bool {
    exists|k: int| 0 <= k < vs.len() && mentions_chunked(#[trigger] vs[k])
}

pub open spec fn all_digits(v: Seq<u8>) -> bool {
    forall|j: int| 0 <= j < v.len() ==> is_digit(#[trigger] v[j])
}

/// The length that the first `Content-Length` value declares: a non-empty
/// run of at most `MAX_LENGTH_DIGITS` decimal digits.
pub open spec fn declared_length(vs: Seq<Seq<u8>>) -> Option<nat> {
    if vs.len() > 0 && 0 < vs[0].len() <= MAX_LENGTH_DIGITS && all_digits(vs[0]) {
        Some(decimal_value(vs[0]))
    } else {
        None
    }
}

pub open spec fn transfer_encoding_name() -> Seq<u8> {
    seq![116u8, 114u8, 97u8, 110u8, 115u8, 102u8, 101u8, 114u8, 45u8, 101u8, 110u8, 99u8, 111u8, 100u8, 105u8, 110u8, 103u8]
}

pub open spec fn content_length_name() -> Seq<u8> {
    seq![99u8, 111u8, 110u8, 116u8, 101u8, 110u8, 116u8, 45u8, 108u8, 101u8, 110u8, 103u8, 116u8, 104u8]
}

/// Status code, headers and decoded body of a response.
pub struct ResponseModel {
    pub status: u16,
    pub headers: Seq<(Seq<u8>, Seq<u8>)>,
    pub body: Seq<u8>,
}

/// What the bytes `s` amount to: a complete response (`Some`), a need for
/// more bytes (`None`), or an error. `closed` says that the peer has closed
/// the connection, so no more bytes will come.
pub open spec fn parse_spec(s: Seq<u8>, closed: bool) -> Result<Option<ResponseModel>, TransportError> {
    let h = first_blank_line(s, 0);
    if h >= s.len() {
        if closed { Err(TransportError::ConnectionLost) } else { Ok(None) }
    } else {
        let l = first_crlf(s, 0);
        match status_of_line(s, l) {
            None => Err(TransportError::MalformedStatusLine),
            Some(status) => {
                let headers = if l < h { header_lines(s, l + 2, h) } else { Seq::empty() };
                let start = h + 4;
                let te = values_named(headers, transfer_encoding_name());
                let cl = values_named(headers, content_length_name());
                if any_chunked(te) {
                    match dechunk_from(s, start) {
                        Dechunked::Complete(body, _) => Ok(Some(ResponseModel { status, headers, body })),
                        Dechunked::Incomplete => if closed {
                            Err(TransportError::ChunkedDecodeError)
                        } else {
                            Ok(None)
                        },
                        Dechunked::Malformed => Err(TransportError::ChunkedDecodeError),
                    }
                } else {
                    match declared_length(cl) {
                        Some(n) => if start + n <= s.len() {
                            Ok(
                                Some(
                                    ResponseModel {
                                        status,
                                        headers,
                                        body: s.subrange(start, start + n),
                                    },
                                ),
                            )
                        } else if closed {
                            Err(TransportError::TruncatedBody)
                        } else {
                            Ok(None)
                        },
                        None => if closed {
                            Ok(
                                Some(
                                    ResponseModel {
                                        status,
                                        headers,
                                        body: s.subrange(start, s.len() as int),
                                    },
                                ),
                            )
                        } else {
                            Ok(None)
                        },
                    }
                }
            },
        }
    }
}

/// One header written as a line: the name, a colon, a space and the value.
pub open spec fn header_line_text(e: (Seq<u8>, Seq<u8>)) -> Seq<u8> {
    e.0 + seq![58u8, 32u8] + e.1
}

/// Header lines joined by CRLF, in order.
pub open spec fn header_block(es: Seq<(Seq<u8>, Seq<u8>)>) -> Seq<u8>
    decreases es.len(),
{
    if es.len() <= 1 {
        if es.len() == 0 {
            Seq::empty()
        } else {
            header_line_text(es[0])
        }
    } else {
        header_line_text(es[0]) + seq![13u8, 10u8] + header_block(es.drop_first())
    }
}

/// A header that its line gives back as it is: a name without colon or
/// CR, a value without CR and without space or tab at either end.
pub open spec fn plain_header(e: (Seq<u8>, Seq<u8>)) -> bool {
    &&& forall|k: int| 0 <= k < e.0.len() ==> #[trigger] e.0[k] != 58u8 && e.0[k] != 13u8
    &&& forall|k: int| 0 <= k < e.1.len() ==> #[trigger] e.1[k] != 13u8
    &&& e.1.len() > 0 ==> !is_space(e.1[0]) && !is_space(e.1[e.1.len() - 1])
}

proof fn lemma_first_crlf_at(s: Seq<u8>, a: int, b: int)
    requires
        0 <= a <= b,
        crlf_at(s, b),
        forall|k: int| a <= k < b ==> #[trigger] s[k] != 13u8,
    ensures
        first_crlf(s, a) == b,
    decreases b - a,
{
    if a < b {
        lemma_first_crlf_at(s, a + 1, b);
    }
}

proof fn lemma_first_byte_at(s: Seq<u8>, a: int, m: int, b: int, c: u8)
    requires
        0 <= a <= m < b <= s.len(),
        s[m] == c,
        forall|k: int| a <= k < m ==> #[trigger] s[k] != c,
    ensures
        first_byte(s, a, b, c) == m,
    decreases m - a,
{
    if a < m {
        lemma_first_byte_at(s, a + 1, m, b, c);
    }
}

/// The line `s[a..b]` that writes a plain header gives that header.
proof fn lemma_line_header(s: Seq<u8>, a: int, b: int, e: (Seq<u8>, Seq<u8>))
    requires
        0 <= a <= b <= s.len(),
        s.subrange(a, b) == header_line_text(e),
        plain_header(e),
    ensures
        header_of_line(s, a, b) == seq![e],
{
    let t = header_line_text(e);
    let n = e.0.len() as int;
    let v = e.1.len() as int;
    assert forall|k: int| 0 <= k < t.len() implies s[a + k] == #[trigger] t[k] by {
        assert(s.subrange(a, b)[k] == s[a + k]);
    }
    assert forall|k: int| a <= k < a + n implies #[trigger] s[k] != 58u8 by {
        assert(t[k - a] == e.0[k - a]);
        assert(s[a + (k - a)] == t[k - a]);
    }
    assert(t[n] == 58u8);
    assert(s[a + n] == 58u8);
    lemma_first_byte_at(s, a, a + n, b, 58u8);
    let colon = a + n;
    assert(t[n + 1] == 32u8);
    assert(s[a + (n + 1)] == 32u8);
    if v == 0 {
        assert(skip_space(s, colon + 2, b) == b);
        assert(skip_space(s, colon + 1, b) == b);
        assert(trim_end(s, b, b) == b);
        assert(s.subrange(b, b) =~= e.1);
    } else {
        assert(t[n + 2] == e.1[0]);
        assert(s[a + (n + 2)] == t[n + 2]);
        assert(skip_space(s, colon + 2, b) == colon + 2);
        assert(skip_space(s, colon + 1, b) == colon + 2);
        assert(t[n + 1 + v] == e.1[v - 1]);
        assert(s[a + (n + 1 + v)] == t[n + 1 + v]);
        assert(trim_end(s, colon + 2, b) == b);
        assert(s.subrange(colon + 2, b) =~= e.1) by {
            assert forall|k: int| 0 <= k < v implies s.subrange(colon + 2, b)[k] == e.1[k] by {
                assert(t[n + 2 + k] == e.1[k]);
                assert(s[a + (n + 2 + k)] == t[n + 2 + k]);
            }
        }
    }
    assert(s.subrange(a, colon) =~= e.0) by {
        assert forall|k: int| 0 <= k < n implies s.subrange(a, colon)[k] == e.0[k] by {
            assert(t[k] == e.0[k]);
            assert(s[a + k] == t[k]);
        }
    }
}

/// Header lines are read in order, one entry per line, none dropped or
/// merged: a block of plain header lines that ends at `h`, where the blank
/// line starts, gives exactly its headers, duplicates included.
pub proof fn lemma_header_block(s: Seq<u8>, pos: int, h: int, es: Seq<(Seq<u8>, Seq<u8>)>)
    requires
        es.len() >= 1,
        forall|i: int| 0 <= i < es.len() ==> plain_header(#[trigger] es[i]),
        0 <= pos,
        pos + header_block(es).len() == h,
        h <= s.len(),
        s.subrange(pos, h) == header_block(es),
        crlf_at(s, h),
    ensures
        header_lines(s, pos, h) == es,
    decreases es.len(),
{
    let blk = header_block(es);
    let e = es[0];
    let t = header_line_text(e);
    assert(plain_header(e));
    assert forall|k: int| 0 <= k < blk.len() implies s[pos + k] == #[trigger] blk[k] by {
        assert(s.subrange(pos, h)[k] == s[pos + k]);
    }
    let i = pos + t.len();
    assert forall|k: int| 0 <= k < t.len() implies #[trigger] t[k] != 13u8 by {
        if k < e.0.len() {
            assert(t[k] == e.0[k]);
        } else if k >= e.0.len() + 2 {
            assert(t[k] == e.1[k - e.0.len() - 2]);
        }
    }
    if es.len() == 1 {
        assert(blk == t);
        assert forall|k: int| pos <= k < h implies #[trigger] s[k] != 13u8 by {
            assert(s[pos + (k - pos)] == blk[k - pos]);
        }
        lemma_first_crlf_at(s, pos, h);
        lemma_line_header(s, pos, h, e);
    } else {
        let rest = es.drop_first();
        assert(blk == t + seq![13u8, 10u8] + header_block(rest));
        assert forall|k: int| pos <= k < i implies #[trigger] s[k] != 13u8 by {
            assert(s[pos + (k - pos)] == blk[k - pos]);
            assert(blk[k - pos] == t[k - pos]);
        }
        assert(s[pos + t.len()] == blk[t.len() as int]);
        assert(s[pos + (t.len() + 1)] == blk[t.len() as int + 1]);
        lemma_first_crlf_at(s, pos, i);
        assert(s.subrange(pos, i) =~= t) by {
            assert forall|k: int| 0 <= k < t.len() implies s.subrange(pos, i)[k] == t[k] by {
                assert(s[pos + k] == blk[k]);
            }
        }
        lemma_line_header(s, pos, i, e);
        assert(s.subrange(i + 2, h) =~= header_block(rest)) by {
            assert forall|k: int| 0 <= k < h - (i + 2) implies s.subrange(i + 2, h)[k] == header_block(
                rest,
            )[k] by {
                assert(s[pos + (t.len() + 2 + k)] == blk[t.len() as int + 2 + k]);
            }
        }
        assert forall|j: int| 0 <= j < rest.len() implies plain_header(#[trigger] rest[j]) by {
            assert(rest[j] == es[j + 1]);
        }
        lemma_header_block(s, i + 2, h, rest);
        assert(seq![e] + rest =~= es);
    }
}

/// A response whose head is a status line and a block of plain header
/// lines carries exactly those headers, in order, duplicates included; so
/// looking up any name gives the values of the lines with that name up to
/// ASCII case, in the order they came.
pub proof fn lemma_response_headers(raw: Seq<u8>, closed: bool, es: Seq<(Seq<u8>, Seq<u8>)>)
    requires
        es.len() >= 1,
        forall|i: int| 0 <= i < es.len() ==> plain_header(#[trigger] es[i]),
        first_blank_line(raw, 0) < raw.len(),
        first_crlf(raw, 0) + 2 <= first_blank_line(raw, 0),
        raw.subrange(first_crlf(raw, 0) + 2, first_blank_line(raw, 0)) == header_block(es),
    ensures
        parse_spec(raw, closed) matches Ok(Some(m)) ==> m.headers == es && forall|n: Seq<u8>|
            values_named(m.headers, n) == values_named(es, n),
{
    lemma_blank_line_found(raw, 0);
    lemma_first_crlf_from(raw, 0);
    let l = first_crlf(raw, 0);
    let h = first_blank_line(raw, 0);
    lemma_header_block(raw, l + 2, h, es);
}

proof fn lemma_first_crlf_from(s: Seq<u8>, from: int)
    requires
        0 <= from,
    ensures
        from <= first_crlf(s, from) || first_crlf(s, from) == s.len(),
        first_crlf(s, from) >= 0,
    decreases s.len() - from,
{
    if from < s.len() && !crlf_at(s, from) {
        lemma_first_crlf_from(s, from + 1);
    }
}

proof fn lemma_hex_run_bound(s: Seq<u8>, pos: int)
    requires
        0 <= pos <= s.len(),
    ensures
        pos + hex_run(s, pos) <= s.len(),
    decreases s.len() - pos,
{
    if pos < s.len() {
        lemma_hex_run_bound(s, pos + 1);
    }
}

proof fn lemma_first_byte_ge(s: Seq<u8>, from: int, to: int, b: u8)
    requires
        0 <= from <= to,
    ensures
        from <= first_byte(s, from, to, b) <= to,
    decreases to - from,
{
    if from < to && from < s.len() && s[from] != b {
        lemma_first_byte_ge(s, from + 1, to, b);
    }
}

proof fn lemma_hex_run_same(s1: Seq<u8>, s2: Seq<u8>, pos: int)
    requires
        s1.len() == s2.len(),
        0 <= pos,
        forall|k: int| pos <= k < s1.len() ==> s1[k] == s2[k],
    ensures
        hex_run(s1, pos) == hex_run(s2, pos),
    decreases s1.len() - pos,
{
    if pos < s1.len() {
        lemma_hex_run_same(s1, s2, pos + 1);
    }
}

/// Chunk decoding at `pos` reads no byte before `pos`.
proof fn lemma_dechunk_same(s1: Seq<u8>, s2: Seq<u8>, pos: int)
    requires
        s1.len() == s2.len(),
        0 <= pos <= s1.len(),
        forall|k: int| pos <= k < s1.len() ==> s1[k] == s2[k],
    ensures
        dechunk_from(s1, pos) == dechunk_from(s2, pos),
    decreases s1.len() - pos,
{
    lemma_hex_run_same(s1, s2, pos);
    lemma_hex_run_bound(s1, pos);
    let k = hex_run(s1, pos);
    let e = pos + k;
    assert(s1.subrange(pos, e) =~= s2.subrange(pos, e)) by {
        assert forall|j: int| 0 <= j < e - pos implies s1.subrange(pos, e)[j] == s2.subrange(pos, e)[j] by {
            assert(s1[pos + j] == s2[pos + j]);
        }
    }
    if k <= MAX_SIZE_DIGITS && e + 1 < s1.len() && k > 0 {
        let n = hex_value(s1.subrange(pos, e));
        let d = e + 2;
        if n > 0 && d + n + 2 <= s1.len() {
            lemma_dechunk_same(s1, s2, d + n + 2);
            assert(s1.subrange(d, d + n) =~= s2.subrange(d, d + n));
        }
    }
}

proof fn lemma_first_byte_same(s1: Seq<u8>, s2: Seq<u8>, from: int, to: int, b: u8)
    requires
        0 <= from,
        to <= s1.len(),
        to <= s2.len(),
        forall|k: int| from <= k < to ==> s1[k] == s2[k],
    ensures
        first_byte(s1, from, to, b) == first_byte(s2, from, to, b),
    decreases to - from,
{
    if from < to {
        lemma_first_byte_same(s1, s2, from + 1, to, b);
    }
}

/// Header names are read without regard to ASCII case: two responses that
/// differ only in the case of their header names have the same status,
/// body and framing outcome.
pub proof fn lemma_framing_ignores_name_case(
    raw1: Seq<u8>,
    raw2: Seq<u8>,
    closed: bool,
    es1: Seq<(Seq<u8>, Seq<u8>)>,
    es2: Seq<(Seq<u8>, Seq<u8>)>,
)
    requires
        raw1.len() == raw2.len(),
        es1.len() >= 1,
        es1.len() == es2.len(),
        forall|i: int| 0 <= i < es1.len() ==> plain_header(#[trigger] es1[i]),
        forall|i: int| 0 <= i < es2.len() ==> plain_header(#[trigger] es2[i]),
        forall|i: int|
            0 <= i < es1.len() ==> lower_bytes(#[trigger] es1[i].0) == lower_bytes(es2[i].0)
                && es1[i].1 == es2[i].1,
        first_blank_line(raw1, 0) < raw1.len(),
        first_blank_line(raw2, 0) == first_blank_line(raw1, 0),
        first_crlf(raw2, 0) == first_crlf(raw1, 0),
        first_crlf(raw1, 0) + 2 <= first_blank_line(raw1, 0),
        raw1.subrange(first_crlf(raw1, 0) + 2, first_blank_line(raw1, 0)) == header_block(es1),
        raw2.subrange(first_crlf(raw2, 0) + 2, first_blank_line(raw2, 0)) == header_block(es2),
        forall|k: int| 0 <= k < first_crlf(raw1, 0) ==> raw1[k] == raw2[k],
        forall|k: int| first_blank_line(raw1, 0) <= k < raw1.len() ==> raw1[k] == raw2[k],
    ensures
        match (parse_spec(raw1, closed), parse_spec(raw2, closed)) {
            (Ok(Some(m1)), Ok(Some(m2))) => m1.status == m2.status && m1.body == m2.body,
            (Ok(None), Ok(None)) => true,
            (Err(e1), Err(e2)) => e1 == e2,
            _ => false,
        },
{
    let h = first_blank_line(raw1, 0);
    let l = first_crlf(raw1, 0);
    lemma_blank_line_found(raw1, 0);
    lemma_first_crlf_from(raw1, 0);
    lemma_header_block(raw1, l + 2, h, es1);
    lemma_header_block(raw2, l + 2, h, es2);
    lemma_first_byte_same(raw1, raw2, 0, l, 32u8);
    lemma_first_byte_ge(raw1, 0, l, 32u8);
    let sp = first_byte(raw1, 0, l, 32u8);
    assert(status_of_line(raw1, l) == status_of_line(raw2, l)) by {
        if sp + 4 <= l {
            assert(raw1[sp + 1] == raw2[sp + 1]);
            assert(raw1[sp + 2] == raw2[sp + 2]);
            assert(raw1[sp + 3] == raw2[sp + 3]);
            if sp + 4 < l {
                assert(raw1[sp + 4] == raw2[sp + 4]);
            }
        }
    }
    assert forall|i: int| 0 <= i < es1.len() implies lower_bytes(#[trigger] es1[i].0) == lower_bytes(
        es2[i].0,
    ) && es1[i].1 == es2[i].1 by {}
    lemma_case_blind_lists(es1, es2, transfer_encoding_name());
    lemma_case_blind_lists(es1, es2, content_length_name());
    lemma_dechunk_same(raw1, raw2, h + 4);
    assert(raw1.subrange(h + 4, raw1.len() as int) =~= raw2.subrange(h + 4, raw2.len() as int));
    let cl = values_named(es1, content_length_name());
    if let Some(n) = declared_length(cl) {
        if h + 4 + n <= raw1.len() {
            assert(raw1.subrange(h + 4, h + 4 + n) =~= raw2.subrange(h + 4, h + 4 + n));
        }
    }
}

/// Every status that a response carries is a three-digit HTTP status.
pub proof fn lemma_status_in_range(s: Seq<u8>, closed: bool)
    ensures
        parse_spec(s, closed) matches Ok(Some(m)) ==> 100 <= m.status <= 999,
{
}

/// The headers of the head that ends with the blank line at `h`, whose
/// status line ends at `l`.
pub open spec fn head_headers(s: Seq<u8>, l: int, h: int) -> Seq<(Seq<u8>, Seq<u8>)> {
    if l < h {
        header_lines(s, l + 2, h)
    } else {
        Seq::empty()
    }
}

/// Length framing: once the head of a response declares `n` body bytes and
/// no chunked transfer, the connection closing with fewer bytes after the
/// head gives `TruncatedBody`, and exactly `n` bytes are the body unchanged.
pub proof fn lemma_content_length_framing(raw: Seq<u8>, closed: bool, n: nat)
    requires
        first_blank_line(raw, 0) < raw.len(),
        status_of_line(raw, first_crlf(raw, 0)) is Some,
        !any_chunked(
            values_named(
                head_headers(raw, first_crlf(raw, 0), first_blank_line(raw, 0)),
                transfer_encoding_name(),
            ),
        ),
        declared_length(
            values_named(
                head_headers(raw, first_crlf(raw, 0), first_blank_line(raw, 0)),
                content_length_name(),
            ),
        ) == Some(n),
    ensures
        ({
            let start = first_blank_line(raw, 0) + 4;
            &&& (closed && raw.len() < start + n) ==> parse_spec(raw, closed) == Err::<
                Option<ResponseModel>,
                TransportError,
            >(TransportError::TruncatedBody)
            &&& raw.len() == start + n ==> (parse_spec(raw, closed) matches Ok(Some(m)) && m.body
                == raw.subrange(start, raw.len() as int))
        }),
{
}

proof fn lemma_blank_line_found(s: Seq<u8>, from: int)
    requires
        0 <= from,
    ensures
        first_blank_line(s, from) < s.len() ==> crlf_at(s, first_blank_line(s, from)) && crlf_at(
            s,
            first_blank_line(s, from) + 2,
        ),
    decreases s.len() - from,
{
    if from < s.len() && !(crlf_at(s, from) && crlf_at(s, from + 2)) {
        lemma_blank_line_found(s, from + 1);
    }
}

/// Chunked framing: once the head of a response announces chunked transfer,
/// a body that is the wire form of some chunks decodes to their payloads,
/// and a body cut short of it is a `ChunkedDecodeError` once the
/// connection has closed, never a shorter payload.
pub proof fn lemma_chunked_framing(raw: Seq<u8>, closed: bool, cs: Seq<Seq<u8>>)
    requires
        first_blank_line(raw, 0) < raw.len(),
        status_of_line(raw, first_crlf(raw, 0)) is Some,
        any_chunked(
            values_named(
                head_headers(raw, first_crlf(raw, 0), first_blank_line(raw, 0)),
                transfer_encoding_name(),
            ),
        ),
        forall|i: int| 0 <= i < cs.len() ==> valid_chunk(#[trigger] cs[i]),
    ensures
        ({
            let start = first_blank_line(raw, 0) + 4;
            let body = raw.subrange(start, raw.len() as int);
            &&& body == encode_chunks(cs) ==> (parse_spec(raw, closed) matches Ok(Some(m)) && m.body
                == concat_chunks(cs))
            &&& (body.len() < encode_chunks(cs).len() && body == encode_chunks(cs).subrange(
                0,
                body.len() as int,
            ) && closed) ==> parse_spec(raw, closed) == Err::<Option<ResponseModel>, TransportError>(
                TransportError::ChunkedDecodeError,
            )
        }),
{
    lemma_blank_line_found(raw, 0);
    let start = first_blank_line(raw, 0) + 4;
    let body = raw.subrange(start, raw.len() as int);
    if body == encode_chunks(cs) {
        lemma_round_trip_from(raw, start, cs);
    }
    if body.len() < encode_chunks(cs).len() && body == encode_chunks(cs).subrange(0, body.len() as int) {
        lemma_truncated_from(raw, start, cs);
    }
}

pub open spec fn pow10(k: nat) -> nat
    decreases k,
{
    if k == 0 {
        1
    } else {
        10 * pow10((k - 1) as nat)
    }
}

proof fn lemma_pow10_le(k: nat)
    requires
        k <= 17,
    ensures
        pow10(k) <= 100_000_000_000_000_000,
    decreases 17 - k,
{
    if k < 17 {
        lemma_pow10_le(k + 1);
    } else {
        reveal_with_fuel(pow10, 18);
    }
}

fn find_blank_line(s: &[u8]) -> (r: usize)
    ensures
        r == first_blank_line(s@, 0),
        r <= s@.len(),
        r < s@.len() ==> crlf_at(s@, r as int) && crlf_at(s@, r + 2),
{
    let mut i: usize = 0;
    while i < s.len()
        invariant
            i <= s@.len(),
            first_blank_line(s@, 0) == first_blank_line(s@, i as int),
        decreases s@.len() - i,
    {
        if s.len() - i >= 4 && s[i] == 13u8 && s[i + 1] == 10u8 && s[i + 2] == 13u8 && s[i + 3]
            == 10u8 {
            return i;
        }
        proof {
            assert(!(crlf_at(s@, i as int) && crlf_at(s@, i + 2)));
        }
        i = i + 1;
    }
    i
}

fn skip_space_exec(s: &[u8], from: usize, to: usize) -> (r: usize)
    requires
        from <= to <= s@.len(),
    ensures
        r == skip_space(s@, from as int, to as int),
        from <= r <= to,
{
    let mut i: usize = from;
    while i < to && (s[i] == 32u8 || s[i] == 9u8)
        invariant
            from <= i <= to,
            to <= s@.len(),
            skip_space(s@, from as int, to as int) == skip_space(s@, i as int, to as int),
        decreases to - i,
    {
        i = i + 1;
    }
    i
}

fn trim_end_exec(s: &[u8], from: usize, to: usize) -> (r: usize)
    requires
        from <= to <= s@.len(),
    ensures
        r == trim_end(s@, from as int, to as int),
        from <= r <= to,
{
    let mut j: usize = to;
    while j > from && (s[j - 1] == 32u8 || s[j - 1] == 9u8)
        invariant
            from <= j <= to,
            to <= s@.len(),
            trim_end(s@, from as int, to as int) == trim_end(s@, from as int, j as int),
        decreases j,
    {
        j = j - 1;
    }
    j
}

/// Adds the header of the line `s[a..b]`, if it has one, to `map`.
fn push_line_header(s: &[u8], a: usize, b: usize, map: &mut HeaderMap)
    requires
        a <= b <= s@.len(),
    ensures
        final(map)@ == old(map)@ + header_of_line(s@, a as int, b as int),
{
    let colon = find_byte(s, a, b, 58u8);
    if colon >= b {
        proof {
            assert(old(map)@ + Seq::<(Seq<u8>, Seq<u8>)>::empty() =~= old(map)@);
        }
        return;
    }
    let vs = skip_space_exec(s, colon + 1, b);
    let ve = trim_end_exec(s, vs, b);
    let name = copy_range(s, a, colon);
    let value = copy_range(s, vs, ve);
    map.push(name, value);
    proof {
        assert(final(map)@ =~= old(map)@ + header_of_line(s@, a as int, b as int));
    }
}

/// The headers of the lines from `start` up to the line that ends at `h`.
fn parse_header_lines(s: &[u8], start: usize, h: usize) -> (r: HeaderMap)
    requires
        start <= h + 1,
        h + 1 < s@.len(),
    ensures
        r@ == header_lines(s@, start as int, h as int),
{
    let mut map = HeaderMap::new();
    let mut pos: usize = start;
    let total = s.len();
    while pos <= h
        invariant
            total == s@.len(),
            start <= pos <= h + 1,
            h + 1 < s@.len(),
            header_lines(s@, start as int, h as int) == map@ + header_lines(s@, pos as int, h as int),
        decreases h + 1 - pos,
    {
        let found = find_crlf(s, pos);
        let i = if found > h {
            h
        } else {
            found
        };
        let ghost before = map@;
        push_line_header(s, pos, i, &mut map);
        if i >= h {
            proof {
                assert(header_lines(s@, pos as int, h as int) == header_of_line(s@, pos as int, h as int));
                assert(header_lines(s@, start as int, h as int) == map@ + Seq::<(Seq<u8>, Seq<u8>)>::empty()) by {
                    assert(map@ + Seq::<(Seq<u8>, Seq<u8>)>::empty() =~= map@);
                }
                assert(header_lines(s@, h + 1, h as int) == Seq::<(Seq<u8>, Seq<u8>)>::empty());
            }
            pos = h + 1;
        } else {
            proof {
                assert(before + (header_of_line(s@, pos as int, i as int) + header_lines(s@, i + 2, h as int))
                    =~= map@ + header_lines(s@, i + 2, h as int));
            }
            pos = i + 2;
        }
    }
    proof {
        assert(map@ + Seq::<(Seq<u8>, Seq<u8>)>::empty() =~= map@);
    }
    map
}

/// The code of the status line `s[0..l]`.
fn parse_status_line(s: &[u8], l: usize) -> (r: Option<u16>)
    requires
        l <= s@.len(),
    ensures
        r == status_of_line(s@, l as int),
{
    let sp = find_byte(s, 0, l, 32u8);
    if sp < l && l - sp > 3 && 49u8 <= s[sp + 1] && s[sp + 1] <= 57u8 && 48u8 <= s[sp + 2] && s[sp
        + 2] <= 57u8 && 48u8 <= s[sp + 3] && s[sp + 3] <= 57u8 && (sp + 4 == l || s[sp + 4]
        == 32u8) {
        let code = ((s[sp + 1] - 48u8) as u16) * 100 + ((s[sp + 2] - 48u8) as u16) * 10 + ((s[sp
            + 3] - 48u8) as u16);
        Some(code)
    } else {
        None
    }
}

/// Whether `v` holds `chunked`, in any ASCII case, at `j`.
fn chunked_at(v: &[u8], j: usize) -> (r: bool)
    requires
        j + 7 <= v@.len(),
    ensures
        r == (lower_bytes(v@).subrange(j as int, j + 7) == chunked_word()),
{
    let r = lower_byte_exec(v[j]) == 99u8 && lower_byte_exec(v[j + 1]) == 104u8 && lower_byte_exec(
        v[j + 2],
    ) == 117u8 && lower_byte_exec(v[j + 3]) == 110u8 && lower_byte_exec(v[j + 4]) == 107u8
        && lower_byte_exec(v[j + 5]) == 101u8 && lower_byte_exec(v[j + 6]) == 100u8;
    proof {
        let w = lower_bytes(v@).subrange(j as int, j + 7);
        assert(forall|k: int| 0 <= k < 7 ==> #[trigger] w[k] == lower_byte(v@[j + k]));
        if r {
            assert(w =~= chunked_word());
        } else if w == chunked_word() {
            assert(w[0] == chunked_word()[0]);
            assert(w[1] == chunked_word()[1]);
            assert(w[2] == chunked_word()[2]);
            assert(w[3] == chunked_word()[3]);
            assert(w[4] == chunked_word()[4]);
            assert(w[5] == chunked_word()[5]);
            assert(w[6] == chunked_word()[6]);
        }
    }
    r
}

/// Whether `v` holds `chunked` anywhere, in any ASCII case.
pub fn mentions_chunked_exec(v: &[u8]) -> (r: bool)
    ensures
        r == mentions_chunked(v@),
{
    if v.len() < 7 {
        return false;
    }
    let mut j: usize = 0;
    while j <= v.len() - 7
        invariant
            v@.len() >= 7,
            j <= v@.len() - 6,
            forall|i: int| 0 <= i < j ==> #[trigger] lower_bytes(v@).subrange(i, i + 7) != chunked_word(),
        decreases v@.len() - j,
    {
        if chunked_at(v, j) {
            return true;
        }
        j = j + 1;
    }
    false
}

/// Whether some value in `vs` holds `chunked`.
fn any_chunked_exec(vs: &Vec<Vec<u8>>) -> (r: bool)
    ensures
        r == any_chunked(vs@.map_values(|v: Vec<u8>| v@)),
{
    let ghost m = vs@.map_values(|v: Vec<u8>| v@);
    let mut k: usize = 0;
    while k < vs.len()
        invariant
            k <= vs@.len(),
            m == vs@.map_values(|v: Vec<u8>| v@),
            forall|i: int| 0 <= i < k ==> !mentions_chunked(#[trigger] m[i]),
        decreases vs@.len() - k,
    {
        if mentions_chunked_exec(vs[k].as_slice()) {
            proof {
                assert(m[k as int] == vs@[k as int]@);
            }
            return true;
        }
        proof {
            assert(m[k as int] == vs@[k as int]@);
        }
        k = k + 1;
    }
    false
}

/// The length declared by the first value of `vs`.
fn declared_length_exec(vs: &Vec<Vec<u8>>) -> (r: Option<u64>)
    ensures
        match r {
            Some(n) => declared_length(vs@.map_values(|v: Vec<u8>| v@)) == Some(n as nat),
            None => declared_length(vs@.map_values(|v: Vec<u8>| v@)) is None,
        },
{
    let ghost m = vs@.map_values(|v: Vec<u8>| v@);
    if vs.len() == 0 {
        return None;
    }
    let v = &vs[0];
    proof {
        assert(m[0] == v@);
    }
    if v.len() == 0 || v.len() > MAX_LENGTH_DIGITS {
        return None;
    }
    let mut i: usize = 0;
    let mut n: u64 = 0;
    while i < v.len()
        invariant
            i <= v@.len() <= MAX_LENGTH_DIGITS,
            m == vs@.map_values(|v: Vec<u8>| v@),
            vs@.len() > 0,
            m[0] == v@,
            forall|j: int| 0 <= j < i ==> is_digit(#[trigger] v@[j]),
            n as nat == decimal_value(v@.subrange(0, i as int)),
            n < pow10(i as nat),
        decreases v@.len() - i,
    {
        let b = v[i];
        if b < 48u8 || b > 57u8 {
            proof {
                assert(!is_digit(v@[i as int]));
                assert(!all_digits(m[0]));
            }
            return None;
        }
        proof {
            lemma_pow10_le(i as nat);
            let sub = v@.subrange(0, i + 1);
            assert(sub.drop_last() =~= v@.subrange(0, i as int));
            assert(sub.last() == b);
        }
        n = n * 10 + (b - 48u8) as u64;
        i = i + 1;
    }
    proof {
        assert(v@.subrange(0, v@.len() as int) =~= v@);
        assert(all_digits(m[0]));
    }
    Some(n)
}

fn transfer_encoding_bytes() -> (r: Vec<u8>)
    ensures
        r@ == transfer_encoding_name(),
{
    let r = vec![116u8, 114u8, 97u8, 110u8, 115u8, 102u8, 101u8, 114u8, 45u8, 101u8, 110u8, 99u8, 111u8, 100u8, 105u8, 110u8, 103u8];
    proof {
        assert(r@ =~= transfer_encoding_name());
    }
    r
}

fn content_length_bytes() -> (r: Vec<u8>)
    ensures
        r@ == content_length_name(),
{
    let r = vec![99u8, 111u8, 110u8, 116u8, 101u8, 110u8, 116u8, 45u8, 108u8, 101u8, 110u8, 103u8, 116u8, 104u8];
    proof {
        assert(r@ =~= content_length_name());
    }
    r
}

/// A parsed response.
pub struct Response {
    pub status: u16,
    pub headers: HeaderMap,
    pub body: Vec<u8>,
}

impl View for Response {
    type V = ResponseModel;

    open spec fn view(&self) -> ResponseModel {
        ResponseModel { status: self.status, headers: self.headers@, body: self.body@ }
    }
}

/// Parses the bytes read so far for one response. `Ok(None)` asks for more
/// bytes; `closed` says that the peer has closed the connection.
pub fn parse_response(raw: &[u8], closed: bool) -> (r: Result<Option<Response>, TransportError>)
    ensures
        match r {
            Ok(Some(resp)) => parse_spec(raw@, closed) == Ok::<Option<ResponseModel>, TransportError>(Some(resp@)),
            Ok(None) => parse_spec(raw@, closed) == Ok::<Option<ResponseModel>, TransportError>(None),
            Err(e) => parse_spec(raw@, closed) == Err::<Option<ResponseModel>, TransportError>(e),
        },
{
    let h = find_blank_line(raw);
    if h >= raw.len() {
        if closed {
            return Err(TransportError::ConnectionLost);
        }
        return Ok(None);
    }
    let l = find_crlf(raw, 0);
    let status = match parse_status_line(raw, l) {
        Some(code) => code,
        None => {
            return Err(TransportError::MalformedStatusLine);
        },
    };
    let headers = if l < h {
        parse_header_lines(raw, l + 2, h)
    } else {
        HeaderMap::new()
    };
    let start = h + 4;
    let te = headers.get_all(transfer_encoding_bytes().as_slice());
    let cl = headers.get_all(content_length_bytes().as_slice());
    if any_chunked_exec(&te) {
        match decode_chunked(raw, start) {
            ChunkedBody::Complete { body, end: _ } => Ok(Some(Response { status, headers, body })),
            ChunkedBody::Incomplete => {
                if closed {
                    Err(TransportError::ChunkedDecodeError)
                } else {
                    Ok(None)
                }
            },
            ChunkedBody::Malformed => Err(TransportError::ChunkedDecodeError),
        }
    } else {
        match declared_length_exec(&cl) {
            Some(n) => {
                if n <= (raw.len() - start) as u64 {
                    let body = copy_range(raw, start, start + n as usize);
                    Ok(Some(Response { status, headers, body }))
                } else if closed {
                    Err(TransportError::TruncatedBody)
                } else {
                    Ok(None)
                }
            },
            None => {
                if closed {
                    let body = copy_range(raw, start, raw.len());
                    Ok(Some(Response { status, headers, body }))
                } else {
                    Ok(None)
                }
            },
        }
    }
}

} // verus!
