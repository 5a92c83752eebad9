//! Chunked transfer decoding: a hexadecimal size line, that many payload
//! bytes and a CRLF, repeated until a chunk of size zero.
use vstd::prelude::*;
use crate::bytes::{crlf_at, hex_digit_value, hex_digit_value_exec, hex_value, is_hex_digit, is_hex_digit_exec};

verus! {

/// A size line may hold at most this many hexadecimal digits.
pub const MAX_SIZE_DIGITS: usize = 15;

/// What a chunk stream starting at some offset amounts to.
pub enum Dechunked {
    /// The decoded payload and the offset just past the terminating chunk.
    Complete(Seq<u8>, nat),
    /// The bytes end before the terminating chunk does.
    Incomplete,
    /// A size line or a chunk trailer is wrong.
    Malformed,
}

/// The length of the run of hexadecimal digits that starts at `pos`.
pub open spec fn hex_run(s: Seq<u8>, pos: int) -> nat
    decreases s.len() - pos,
{
    if 0 <= pos < s.len() && is_hex_digit(s[pos]) {
        1 + hex_run(s, pos + 1)
    } else {
        0
    }
}

/// Decoding of the chunk stream that starts at `pos` in `s`.
pub open spec fn dechunk_from(s: Seq<u8>, pos: int) -> Dechunked
    decreases s.len() - pos,
{
    let k = hex_run(s, pos);
    let e = pos + k;
    if k > MAX_SIZE_DIGITS {
        Dechunked::Malformed
    } else if e >= s.len() {
        Dechunked::Incomplete
    } else if k == 0 || s[e] != 13u8 {
        Dechunked::Malformed
    } else if e + 1 == s.len() {
        Dechunked::Incomplete
    } else if s[e + 1] != 10u8 {
        Dechunked::Malformed
    } else {
        let n = hex_value(s.subrange(pos, e));
        let d = e + 2;
        if n == 0 {
            if d == s.len() || (d + 1 == s.len() && s[d] == 13u8) {
                Dechunked::Incomplete
            } else if crlf_at(s, d) {
                Dechunked::Complete(Seq::empty(), (d + 2) as nat)
            } else {
                Dechunked::Malformed
            }
        } else if d + n + 2 > s.len() {
            Dechunked::Incomplete
        } else if crlf_at(s, d + n) {
            prepend(s.subrange(d, d + n), dechunk_from(s, d + n + 2))
        } else {
            Dechunked::Malformed
        }
    }
}

/// `rest` with `front` put before its payload.
pub open spec fn prepend(front: Seq<u8>, rest: Dechunked) -> Dechunked {
    match rest {
        Dechunked::Complete(b, end) => Dechunked::Complete(front + b, end),
        other => other,
    }
}

proof fn lemma_prepend_twice(a: Seq<u8>, b: Seq<u8>, rest: Dechunked)
    ensures
        prepend(a, prepend(b, rest)) == prepend(a + b, rest),
{
    if let Dechunked::Complete(c, _) = rest {
        assert(a + (b + c) =~= (a + b) + c);
    }
}

pub open spec fn pow16(k: nat) -> nat
    decreases k,
{
    if k == 0 {
        1
    } else {
        16 * pow16((k - 1) as nat)
    }
}

proof fn lemma_pow16_le(k: nat)
    requires
        k <= 14,
    ensures
        pow16(k) <= 0x0100_0000_0000_0000,
    decreases 14 - k,
{
    if k < 14 {
        lemma_pow16_le(k + 1);
    } else {
        reveal_with_fuel(pow16, 15);
    }
}

proof fn lemma_hex_run_exact(s: Seq<u8>, pos: int, i: int)
    requires
        0 <= pos <= i <= s.len(),
        forall|j: int| pos <= j < i ==> is_hex_digit(#[trigger] s[j]),
        i == s.len() || !is_hex_digit(s[i]),
    ensures
        hex_run(s, pos) == i - pos,
    decreases i - pos,
{
    if pos < i {
        lemma_hex_run_exact(s, pos + 1, i);
    }
}

proof fn lemma_hex_run_at_least(s: Seq<u8>, pos: int, i: int)
    requires
        0 <= pos <= i <= s.len(),
        forall|j: int| pos <= j < i ==> is_hex_digit(#[trigger] s[j]),
    ensures
        hex_run(s, pos) >= i - pos,
    decreases i - pos,
{
    if pos < i {
        lemma_hex_run_at_least(s, pos + 1, i);
    }
}

/// Reads the hexadecimal digits at `pos`: their count, capped at one more
/// than `MAX_SIZE_DIGITS`, and their value when the count is within it.
fn hex_prefix(s: &[u8], pos: usize) -> (r: (usize, u64))
    requires
        pos <= s@.len(),
    ensures
        r.0 <= MAX_SIZE_DIGITS ==> r.0 == hex_run(s@, pos as int) && r.1 as nat == hex_value(
            s@.subrange(pos as int, pos + r.0),
        ),
        r.0 > MAX_SIZE_DIGITS ==> hex_run(s@, pos as int) > MAX_SIZE_DIGITS,
        r.0 <= MAX_SIZE_DIGITS ==> pos + r.0 <= s@.len(),
{
    let mut i: usize = pos;
    let mut v: u64 = 0;
    let mut bound: u64 = 1;
    while i < s.len() && is_hex_digit_exec(s[i])
        invariant
            pos <= i <= s@.len(),
            i - pos <= MAX_SIZE_DIGITS,
            forall|j: int| pos <= j < i ==> is_hex_digit(#[trigger] s@[j]),
            v as nat == hex_value(s@.subrange(pos as int, i as int)),
            v < bound,
            bound as nat == pow16((i - pos) as nat),
        decreases s@.len() - i,
    {
        if i - pos == MAX_SIZE_DIGITS {
            proof {
                lemma_hex_run_at_least(s@, pos as int, i + 1);
            }
            return (MAX_SIZE_DIGITS + 1, 0);
        }
        let dv = hex_digit_value_exec(s[i]);
        proof {
            lemma_pow16_le((i - pos) as nat);
            let sub = s@.subrange(pos as int, i + 1);
            assert(sub.drop_last() =~= s@.subrange(pos as int, i as int));
            assert(sub.last() == s@[i as int]);
        }
        v = v * 16 + dv as u64;
        bound = bound * 16;
        i = i + 1;
    }
    proof {
        lemma_hex_run_exact(s@, pos as int, i as int);
    }
    (i - pos, v)
}

/// Lower-case hexadecimal digit for `d < 16`.
pub open spec fn hex_digit_char(d: nat) -> u8 {
    if d < 10 {
        (48 + d) as u8
    } else {
        (87 + d) as u8
    }
}

/// `n` written in hexadecimal, without leading zeros.
pub open spec fn hex_text(n: nat) -> Seq<u8>
    decreases n,
{
    if n < 16 {
        seq![hex_digit_char(n)]
    } else {
        hex_text(n / 16).push(hex_digit_char(n % 16))
    }
}

/// One chunk on the wire: its size line, its payload and a CRLF.
pub open spec fn encode_chunk(c: Seq<u8>) -> Seq<u8> {
    hex_text(c.len()) + seq![13u8, 10u8] + c + seq![13u8, 10u8]
}

/// A sequence of chunks on the wire, closed by the chunk of size zero.
pub open spec fn encode_chunks(cs: Seq<Seq<u8>>) -> Seq<u8>
    decreases cs.len(),
{
    if cs.len() == 0 {
        seq![48u8, 13u8, 10u8, 13u8, 10u8]
    } else {
        encode_chunk(cs[0]) + encode_chunks(cs.drop_first())
    }
}

/// The payloads of `cs`, one after another.
pub open spec fn concat_chunks(cs: Seq<Seq<u8>>) -> Seq<u8>
    decreases cs.len(),
{
    if cs.len() == 0 {
        Seq::empty()
    } else {
        cs[0] + concat_chunks(cs.drop_first())
    }
}

/// A chunk that a size line of at most `MAX_SIZE_DIGITS` digits can announce.
pub open spec fn valid_chunk(c: Seq<u8>) -> bool {
    0 < c.len() < pow16(MAX_SIZE_DIGITS as nat)
}

proof fn lemma_hex_digit_char(d: nat)
    requires
        d < 16,
    ensures
        is_hex_digit(hex_digit_char(d)),
        hex_digit_value(hex_digit_char(d)) == d,
{
}

proof fn lemma_hex_text(n: nat)
    ensures
        1 <= hex_text(n).len(),
        forall|j: int| 0 <= j < hex_text(n).len() ==> is_hex_digit(#[trigger] hex_text(n)[j]),
        hex_value(hex_text(n)) == n,
        forall|k: nat| 1 <= k && n < pow16(k) ==> hex_text(n).len() <= k,
    decreases n,
{
    if n < 16 {
        lemma_hex_digit_char(n);
        let t = hex_text(n);
        assert(t.drop_last() =~= Seq::<u8>::empty());
        assert(t.last() == hex_digit_char(n));
        assert(hex_value(t) == hex_value(t.drop_last()) * 16 + hex_digit_value(t.last()));
        assert forall|k: nat| 1 <= k && n < pow16(k) implies hex_text(n).len() <= k by {}
    } else {
        lemma_hex_text(n / 16);
        lemma_hex_digit_char(n % 16);
        let t = hex_text(n);
        assert(t.drop_last() =~= hex_text(n / 16));
        assert(t.last() == hex_digit_char(n % 16));
        assert(hex_value(t) == hex_value(t.drop_last()) * 16 + hex_digit_value(t.last()));
        assert((n / 16) * 16 + n % 16 == n);
        assert forall|j: int| 0 <= j < t.len() implies is_hex_digit(#[trigger] t[j]) by {
            if j < t.len() - 1 {
                assert(t[j] == hex_text(n / 16)[j]);
            }
        }
        assert forall|k: nat| 1 <= k && n < pow16(k) implies hex_text(n).len() <= k by {
            if k == 1 {
                assert(pow16(1) == 16) by {
                    reveal_with_fuel(pow16, 2);
                }
            } else {
                let k1 = (k - 1) as nat;
                assert(pow16(k) == 16 * pow16(k1));
                assert(n / 16 < pow16(k1)) by (nonlinear_arith)
                    requires
                        n < 16 * pow16(k1),
                ;
            }
        }
    }
}

/// One size line and payload at `pos` decode to that payload followed by
/// whatever comes after them.
proof fn lemma_dechunk_one(s: Seq<u8>, pos: int, c: Seq<u8>)
    requires
        0 <= pos,
        pos + encode_chunk(c).len() <= s.len(),
        s.subrange(pos, pos + encode_chunk(c).len()) == encode_chunk(c),
        valid_chunk(c),
    ensures
        dechunk_from(s, pos) == prepend(c, dechunk_from(s, pos + encode_chunk(c).len())),
{
    let n = c.len();
    let t = hex_text(n);
    let l = t.len() as int;
    let w = encode_chunk(c);
    lemma_hex_text(n);
    assert forall|j: int| 0 <= j < w.len() implies s[pos + j] == #[trigger] w[j] by {
        assert(s.subrange(pos, pos + w.len())[j] == s[pos + j]);
    }
    assert forall|j: int| pos <= j < pos + l implies is_hex_digit(#[trigger] s[j]) by {
        assert(w[j - pos] == t[j - pos]);
        assert(s[pos + (j - pos)] == w[j - pos]);
    }
    assert(w[l] == 13u8);
    assert(s[pos + l] == w[l]);
    lemma_hex_run_exact(s, pos, pos + l);
    assert(s.subrange(pos, pos + l) =~= t);
    let d = pos + l + 2;
    assert(w[l + 1] == 10u8);
    assert(s[pos + l + 1] == w[l + 1]);
    assert(s.subrange(d, d + n) =~= c) by {
        assert forall|j: int| 0 <= j < n implies s.subrange(d, d + n)[j] == c[j] by {
            assert(w[l + 2 + j] == c[j]);
            assert(s[pos + (l + 2 + j)] == w[l + 2 + j]);
        }
    }
    assert(w[l + 2 + n] == 13u8);
    assert(w[l + 3 + n] == 10u8);
    assert(s[pos + (l + 2 + n)] == w[l + 2 + n]);
    assert(s[pos + (l + 3 + n)] == w[l + 3 + n]);
    assert(crlf_at(s, d + n));
}

/// The chunk of size zero at `pos`, with its closing CRLF, ends the stream.
proof fn lemma_dechunk_last(s: Seq<u8>, pos: int)
    requires
        0 <= pos,
        pos + 5 <= s.len(),
        s.subrange(pos, pos + 5) == seq![48u8, 13u8, 10u8, 13u8, 10u8],
    ensures
        dechunk_from(s, pos) == Dechunked::Complete(Seq::empty(), (pos + 5) as nat),
{
    let w = seq![48u8, 13u8, 10u8, 13u8, 10u8];
    assert forall|j: int| 0 <= j < 5 implies s[pos + j] == #[trigger] w[j] by {
        assert(s.subrange(pos, pos + 5)[j] == s[pos + j]);
    }
    assert(s[pos] == 48u8);
    assert(s[pos + 1] == 13u8);
    lemma_hex_run_exact(s, pos, pos + 1);
    let z = s.subrange(pos, pos + 1);
    assert(z.drop_last() =~= Seq::<u8>::empty());
    assert(z.last() == 48u8);
    assert(hex_value(z.drop_last()) == 0);
    assert(hex_value(z) == hex_value(z.drop_last()) * 16 + hex_digit_value(z.last()));
    assert(s[pos + 3] == 13u8);
    assert(s[pos + 4] == 10u8);
}

/// Decoding the wire form of any sequence of chunks gives back their
/// payloads exactly, and stops just past the terminating chunk.
pub proof fn lemma_chunked_round_trip(cs: Seq<Seq<u8>>)
    requires
        forall|i: int| 0 <= i < cs.len() ==> valid_chunk(#[trigger] cs[i]),
    ensures
        dechunk_from(encode_chunks(cs), 0) == Dechunked::Complete(
            concat_chunks(cs),
            encode_chunks(cs).len(),
        ),
{
    let s = encode_chunks(cs);
    assert(s.subrange(0, s.len() as int) =~= s);
    lemma_round_trip_from(s, 0, cs);
}

/// The wire form of `cs` at `pos`, up to the end of `s`, decodes to their
/// payloads.
pub proof fn lemma_round_trip_from(s: Seq<u8>, pos: int, cs: Seq<Seq<u8>>)
    requires
        0 <= pos,
        pos + encode_chunks(cs).len() == s.len(),
        s.subrange(pos, s.len() as int) == encode_chunks(cs),
        forall|i: int| 0 <= i < cs.len() ==> valid_chunk(#[trigger] cs[i]),
    ensures
        dechunk_from(s, pos) == Dechunked::Complete(concat_chunks(cs), s.len()),
    decreases cs.len(),
{
    if cs.len() == 0 {
        lemma_dechunk_last(s, pos);
    } else {
        let c = cs[0];
        let rest = cs.drop_first();
        let w = encode_chunk(c);
        let next = pos + w.len();
        assert(valid_chunk(cs[0]));
        assert(encode_chunks(cs) == w + encode_chunks(rest));
        assert(s.subrange(pos, next) =~= w) by {
            assert(s.subrange(pos, next) =~= s.subrange(pos, s.len() as int).subrange(0, w.len() as int));
        }
        assert(s.subrange(next, s.len() as int) =~= encode_chunks(rest)) by {
            assert(s.subrange(next, s.len() as int) =~= s.subrange(pos, s.len() as int).subrange(
                w.len() as int,
                s.len() - pos,
            ));
        }
        assert forall|i: int| 0 <= i < rest.len() implies valid_chunk(#[trigger] rest[i]) by {
            assert(rest[i] == cs[i + 1]);
        }
        lemma_round_trip_from(s, next, rest);
        lemma_dechunk_one(s, pos, c);
    }
}

/// A chunk stream cut anywhere before its end never decodes: the decoder
/// asks for more bytes instead of handing out a shorter payload.
pub proof fn lemma_truncated_chunks(cs: Seq<Seq<u8>>, m: int)
    requires
        forall|i: int| 0 <= i < cs.len() ==> valid_chunk(#[trigger] cs[i]),
        0 <= m < encode_chunks(cs).len(),
    ensures
        dechunk_from(encode_chunks(cs).subrange(0, m), 0) == Dechunked::Incomplete,
{
    let s = encode_chunks(cs).subrange(0, m);
    assert(s.subrange(0, s.len() as int) =~= encode_chunks(cs).subrange(0, m));
    lemma_truncated_from(s, 0, cs);
}

/// A stream at `pos` that is a strict prefix of a chunk encoding asks for
/// more bytes.
pub proof fn lemma_truncated_from(s: Seq<u8>, pos: int, cs: Seq<Seq<u8>>)
    requires
        0 <= pos <= s.len(),
        s.len() - pos < encode_chunks(cs).len(),
        s.subrange(pos, s.len() as int) == encode_chunks(cs).subrange(0, s.len() - pos),
        forall|i: int| 0 <= i < cs.len() ==> valid_chunk(#[trigger] cs[i]),
    ensures
        dechunk_from(s, pos) == Dechunked::Incomplete,
    decreases cs.len(),
{
    let q = s.len() - pos;
    let full = encode_chunks(cs);
    assert forall|j: int| 0 <= j < q implies s[pos + j] == #[trigger] full[j] by {
        assert(s.subrange(pos, s.len() as int)[j] == s[pos + j]);
    }
    if cs.len() == 0 {
        if q >= 1 {
            lemma_hex_run_exact(s, pos, pos + 1);
            if q >= 3 {
                let z = s.subrange(pos, pos + 1);
                assert(z.drop_last() =~= Seq::<u8>::empty());
                assert(z.last() == 48u8);
                assert(hex_value(z.drop_last()) == 0);
                assert(hex_value(z) == hex_value(z.drop_last()) * 16 + hex_digit_value(z.last()));
            }
        } else {
            lemma_hex_run_exact(s, pos, pos);
        }
    } else {
        let c = cs[0];
        let rest = cs.drop_first();
        let w = encode_chunk(c);
        assert(valid_chunk(cs[0]));
        assert(full == w + encode_chunks(rest));
        if q >= w.len() {
            let next = pos + w.len();
            assert(s.subrange(pos, next) =~= w) by {
                assert forall|j: int| 0 <= j < w.len() implies s.subrange(pos, next)[j] == w[j] by {
                    assert(s[pos + j] == full[j]);
                }
            }
            assert(s.subrange(next, s.len() as int) =~= encode_chunks(rest).subrange(0, s.len() - next)) by {
                assert forall|j: int| 0 <= j < s.len() - next implies s.subrange(next, s.len() as int)[j]
                    == encode_chunks(rest)[j] by {
                    assert(s[pos + (w.len() + j)] == full[w.len() + j]);
                }
            }
            assert forall|i: int| 0 <= i < rest.len() implies valid_chunk(#[trigger] rest[i]) by {
                assert(rest[i] == cs[i + 1]);
            }
            lemma_truncated_from(s, next, rest);
            lemma_dechunk_one(s, pos, c);
        } else {
            let n = c.len();
            let t = hex_text(n);
            let l = t.len() as int;
            lemma_hex_text(n);
            if q <= l {
                assert forall|j: int| pos <= j < pos + q implies is_hex_digit(#[trigger] s[j]) by {
                    assert(s[pos + (j - pos)] == full[j - pos]);
                    assert(full[j - pos] == t[j - pos]);
                }
                lemma_hex_run_exact(s, pos, pos + q);
            } else {
                assert forall|j: int| pos <= j < pos + l implies is_hex_digit(#[trigger] s[j]) by {
                    assert(s[pos + (j - pos)] == full[j - pos]);
                    assert(full[j - pos] == t[j - pos]);
                }
                assert(s[pos + l] == full[l]);
                assert(full[l] == 13u8);
                lemma_hex_run_exact(s, pos, pos + l);
                if q > l + 1 {
                    assert(s[pos + l + 1] == full[l + 1]);
                    assert(full[l + 1] == 10u8);
                    assert(s.subrange(pos, pos + l) =~= t) by {
                        assert forall|j: int| 0 <= j < l implies s.subrange(pos, pos + l)[j] == t[j] by {
                            assert(s[pos + j] == full[j]);
                        }
                    }
                }
            }
        }
    }
}

/// The result of decoding a chunk stream.
pub enum ChunkedBody {
    Complete { body: Vec<u8>, end: usize },
    Incomplete,
    Malformed,
}

impl View for ChunkedBody {
    type V = Dechunked;

    open spec fn view(&self) -> Dechunked {
        match self {
            ChunkedBody::Complete { body, end } => Dechunked::Complete(body@, *end as nat),
            ChunkedBody::Incomplete => Dechunked::Incomplete,
            ChunkedBody::Malformed => Dechunked::Malformed,
        }
    }
}

/// Decodes the chunk stream that starts at `start` in `s`.
pub fn decode_chunked(s: &[u8], start: usize) -> (r: ChunkedBody)
    requires
        start <= s@.len(),
    ensures
        r@ == dechunk_from(s@, start as int),
{
    let mut body: Vec<u8> = Vec::new();
    let mut pos: usize = start;
    let total = s.len();
    loop
        invariant
            total == s@.len(),
            pos <= s@.len(),
            dechunk_from(s@, start as int) == prepend(body@, dechunk_from(s@, pos as int)),
        decreases s@.len() - pos,
    {
        let r = hex_prefix(s, pos);
        let k = r.0;
        let n = r.1;
        if k > MAX_SIZE_DIGITS {
            return ChunkedBody::Malformed;
        }
        let e = pos + k;
        if e >= s.len() {
            return ChunkedBody::Incomplete;
        }
        if k == 0 || s[e] != 13u8 {
            return ChunkedBody::Malformed;
        }
        if e + 1 == s.len() {
            return ChunkedBody::Incomplete;
        }
        if s[e + 1] != 10u8 {
            return ChunkedBody::Malformed;
        }
        let d = e + 2;
        if n == 0 {
            if d == s.len() || (d + 1 == s.len() && s[d] == 13u8) {
                return ChunkedBody::Incomplete;
            }
            if s[d] == 13u8 && s[d + 1] == 10u8 {
                proof {
                    assert(body@ + Seq::<u8>::empty() =~= body@);
                }
                return ChunkedBody::Complete { body, end: d + 2 };
            }
            return ChunkedBody::Malformed;
        }
        let avail = s.len() - d;
        if avail < 2 || n > (avail - 2) as u64 {
            return ChunkedBody::Incomplete;
        }
        let len = n as usize;
        if !(s[d + len] == 13u8 && s[d + len + 1] == 10u8) {
            return ChunkedBody::Malformed;
        }
        let ghost before = body@;
        let stop = d + len;
        let mut j: usize = d;
        while j < stop
            invariant
                stop == d + len,
                d <= j <= d + len,
                d + len + 2 <= s@.len(),
                body@ == before + s@.subrange(d as int, j as int),
            decreases stop - j,
        {
            body.push(s[j]);
            proof {
                assert(s@.subrange(d as int, j + 1) =~= s@.subrange(d as int, j as int).push(
                    s@[j as int],
                ));
            }
            j = j + 1;
        }
        proof {
            lemma_prepend_twice(before, s@.subrange(d as int, d + len), dechunk_from(s@, d + len + 2));
        }
        pos = d + len + 2;
    }
}

} // verus!
