//! Stream repair: turns a body made of JSON objects written back to back
//! into one JSON array, by a scan that tracks brace depth and string
//! literals.
use vstd::prelude::*;
use crate::error::TransportError;
use crate::request::push_bytes;

verus! {

pub open spec fn is_json_space(b: u8) -> bool {
    b == 32u8 || b == 9u8 || b == 10u8 || b == 13u8
}

/// Where a scan stands after some prefix of the input.
pub struct ScanState {
    /// Open braces not yet closed, outside string literals.
    pub depth: nat,
    pub in_string: bool,
    /// The previous byte was a backslash inside a string literal.
    pub escaped: bool,
    /// An object has started at depth zero.
    pub started: bool,
    /// The input is not a sequence of objects.
    pub bad: bool,
    /// What the scan has written so far.
    pub out: Seq<u8>,
    /// Whitespace at depth zero not yet written: a comma may go before it.
    pub pending: Seq<u8>,
}

pub open spec fn scan_start() -> ScanState {
    ScanState {
        depth: 0,
        in_string: false,
        escaped: false,
        started: false,
        bad: false,
        out: Seq::empty(),
        pending: Seq::empty(),
    }
}

/// One byte of the scan. A comma goes right after each object that another
/// follows, before the whitespace between them; everything else is copied.
pub open spec fn scan_step(st: ScanState, b: u8) -> ScanState {
    if st.bad {
        st
    } else if st.in_string {
        if st.escaped {
            ScanState { escaped: false, out: st.out.push(b), ..st }
        } else if b == 92u8 {
            ScanState { escaped: true, out: st.out.push(b), ..st }
        } else if b == 34u8 {
            ScanState { in_string: false, out: st.out.push(b), ..st }
        } else {
            ScanState { out: st.out.push(b), ..st }
        }
    } else if b == 123u8 {
        if st.depth == 0 {
            let out = if st.started {
                st.out.push(44u8) + st.pending
            } else {
                st.out + st.pending
            };
            ScanState { depth: 1, started: true, out: out.push(b), pending: Seq::empty(), ..st }
        } else {
            ScanState { depth: st.depth + 1, out: st.out.push(b), ..st }
        }
    } else if b == 125u8 {
        if st.depth == 0 {
            ScanState { bad: true, ..st }
        } else {
            ScanState { depth: (st.depth - 1) as nat, out: st.out.push(b), ..st }
        }
    } else if st.depth == 0 {
        if is_json_space(b) {
            ScanState { pending: st.pending.push(b), ..st }
        } else {
            ScanState { bad: true, ..st }
        }
    } else if b == 34u8 {
        ScanState { in_string: true, out: st.out.push(b), ..st }
    } else {
        ScanState { out: st.out.push(b), ..st }
    }
}

pub open spec fn scan(s: Seq<u8>) -> ScanState
    decreases s.len(),
{
    if s.len() == 0 {
        scan_start()
    } else {
        scan_step(scan(s.drop_last()), s.last())
    }
}

/// The array text for the object stream `s`, or `MalformedStreamError`
/// when its braces do not balance or it holds more than objects and
/// whitespace at the top level.
pub open spec fn repair_spec(s: Seq<u8>) -> Result<Seq<u8>, TransportError> {
    let st = scan(s);
    if st.bad || st.depth != 0 || st.in_string {
        Err(TransportError::MalformedStreamError)
    } else {
        Ok(seq![91u8] + st.out + st.pending + seq![93u8])
    }
}

/// The lexical state of JSON text after some prefix: brace depth outside
/// string literals, whether a string literal is open, and whether the
/// previous byte in it was a backslash.
pub struct Lexed {
    pub depth: int,
    pub in_string: bool,
    pub escaped: bool,
}

pub open spec fn lex_step(st: Lexed, b: u8) -> Lexed {
    if st.in_string {
        if st.escaped {
            Lexed { escaped: false, ..st }
        } else if b == 92u8 {
            Lexed { escaped: true, ..st }
        } else if b == 34u8 {
            Lexed { in_string: false, ..st }
        } else {
            st
        }
    } else if b == 123u8 {
        Lexed { depth: st.depth + 1, ..st }
    } else if b == 125u8 {
        Lexed { depth: st.depth - 1, ..st }
    } else if b == 34u8 {
        Lexed { in_string: true, ..st }
    } else {
        st
    }
}

pub open spec fn lex(s: Seq<u8>) -> Lexed
    decreases s.len(),
{
    if s.len() == 0 {
        Lexed { depth: 0, in_string: false, escaped: false }
    } else {
        lex_step(lex(s.drop_last()), s.last())
    }
}

/// `s` holds, at `i`, a comma outside every object and string literal.
pub open spec fn top_comma(s: Seq<u8>, i: int) -> bool {
    0 <= i < s.len() && s[i] == 44u8 && lex(s.subrange(0, i)).depth == 0 && !lex(
        s.subrange(0, i),
    ).in_string
}

/// `s` without its top-level commas.
pub open spec fn drop_top_commas(s: Seq<u8>) -> Seq<u8>
    decreases s.len(),
{
    if s.len() == 0 {
        Seq::empty()
    } else if s.last() == 44u8 && lex(s.drop_last()).depth == 0 && !lex(s.drop_last()).in_string {
        drop_top_commas(s.drop_last())
    } else {
        drop_top_commas(s.drop_last()).push(s.last())
    }
}

/// At `i` an object has just closed, and after whitespace another opens.
pub open spec fn between_objects(s: Seq<u8>, i: int) -> bool {
    &&& 0 < i && s[i - 1] == 125u8
    &&& exists|j: int|
        i < j < s.len() && s[j] == 123u8 && (forall|k: int| i < k < j ==> is_json_space(#[trigger] s[k]))
}

pub open spec fn all_space(w: Seq<u8>) -> bool {
    forall|k: int| 0 <= k < w.len() ==> is_json_space(#[trigger] w[k])
}

/// What repair adds: brackets around the input, and commas at the top
/// level, each right after an object that another object follows. Taking
/// the brackets and those commas away gives the input back.
pub proof fn lemma_repair_adds_only_separators(s: Seq<u8>)
    ensures
        repair_spec(s) matches Ok(r) ==> ({
            let inner = r.subrange(1, r.len() - 1);
            &&& r.len() >= 2 && r[0] == 91u8 && r[r.len() - 1] == 93u8
            &&& drop_top_commas(inner) == s
            &&& forall|i: int| top_comma(inner, i) ==> between_objects(inner, i)
        }),
{
    let st = scan(s);
    if !st.bad && st.depth == 0 && !st.in_string {
        lemma_scan_shape(s);
        let r = seq![91u8] + st.out + st.pending + seq![93u8];
        assert(r.subrange(1, r.len() - 1) =~= st.out + st.pending);
    }
}

/// Whitespace changes neither the depth nor whether a string is open, and
/// outside string literals it changes nothing at all; it holds no comma.
proof fn lemma_space_tail(x: Seq<u8>, w: Seq<u8>)
    requires
        all_space(w),
    ensures
        lex(x + w).depth == lex(x).depth,
        lex(x + w).in_string == lex(x).in_string,
        !lex(x).in_string ==> lex(x + w) == lex(x),
        drop_top_commas(x + w) == drop_top_commas(x) + w,
        forall|i: int| x.len() <= i < (x + w).len() ==> !top_comma(x + w, i),
    decreases w.len(),
{
    if w.len() == 0 {
        assert(x + w =~= x);
    } else {
        let w0 = w.drop_last();
        assert(all_space(w0)) by {
            assert forall|k: int| 0 <= k < w0.len() implies is_json_space(#[trigger] w0[k]) by {
                assert(w0[k] == w[k]);
            }
        }
        lemma_space_tail(x, w0);
        assert((x + w).drop_last() =~= x + w0);
        assert((x + w).last() == w.last());
        assert(is_json_space(w[w.len() - 1]));
        assert(drop_top_commas(x + w) =~= drop_top_commas(x) + w);
        assert forall|i: int| x.len() <= i < (x + w).len() implies !top_comma(x + w, i) by {
            if i < (x + w0).len() {
                assert((x + w).subrange(0, i) =~= (x + w0).subrange(0, i));
                assert((x + w)[i] == (x + w0)[i]);
            } else {
                assert((x + w)[i] == w[w.len() - 1]);
            }
        }
    }
}

/// Positions before the end of `x` keep their standing when bytes follow.
proof fn lemma_extend_keeps(x: Seq<u8>, y: Seq<u8>)
    requires
        forall|i: int| top_comma(x, i) ==> between_objects(x, i),
    ensures
        forall|i: int| 0 <= i < x.len() && top_comma(x + y, i) ==> between_objects(x + y, i),
{
    assert forall|i: int| 0 <= i < x.len() && top_comma(x + y, i) implies between_objects(x + y, i) by {
        assert((x + y).subrange(0, i) =~= x.subrange(0, i));
        assert((x + y)[i] == x[i]);
        assert(top_comma(x, i));
        let j = choose|j: int|
            i < j < x.len() && x[j] == 123u8 && (forall|k: int| i < k < j ==> is_json_space(#[trigger] x[k]));
        assert((x + y)[i - 1] == x[i - 1]);
        assert((x + y)[j] == x[j]);
        assert forall|k: int| i < k < j implies is_json_space(#[trigger] (x + y)[k]) by {
            assert((x + y)[k] == x[k]);
        }
    }
}

/// How the text written so far relates to the input read so far.
proof fn lemma_scan_shape(s: Seq<u8>)
    requires
        !scan(s).bad,
    ensures
        ({
            let st = scan(s);
            let o = st.out + st.pending;
            &&& lex(o) == (Lexed { depth: st.depth as int, in_string: st.in_string, escaped: st.escaped })
            &&& drop_top_commas(o) == s
            &&& all_space(st.pending)
            &&& st.depth > 0 ==> st.pending.len() == 0
            &&& !st.in_string ==> !st.escaped
            &&& st.in_string ==> st.depth > 0
            &&& st.started && st.depth == 0 ==> st.out.len() > 0 && st.out.last() == 125u8
            &&& forall|i: int| top_comma(o, i) ==> between_objects(o, i)
        }),
    decreases s.len(),
{
    let st = scan(s);
    let o = st.out + st.pending;
    if s.len() == 0 {
        assert(o =~= Seq::<u8>::empty());
        assert(all_space(st.pending));
    } else {
        let p = s.drop_last();
        let b = s.last();
        let prev = scan(p);
        assert(!prev.bad);
        lemma_scan_shape(p);
        let po = prev.out + prev.pending;
        assert(s =~= p.push(b));
        if prev.in_string || b == 125u8 || (prev.depth > 0 && b != 123u8) {
            // One byte is copied after the earlier text.
            assert(prev.pending.len() == 0);
            assert(po =~= prev.out);
            assert(st.pending =~= Seq::<u8>::empty());
            assert(o =~= po.push(b));
            assert(o.drop_last() =~= po);
            assert(all_space(st.pending));
            lemma_extend_keeps(po, seq![b]);
            assert(po + seq![b] =~= o);
            assert forall|i: int| top_comma(o, i) implies between_objects(o, i) by {
                if i == po.len() {
                    assert(o.subrange(0, i) =~= po);
                }
            }
        } else if b == 123u8 && prev.depth == 0 {
            let sep: Seq<u8> = if prev.started { seq![44u8] } else { Seq::empty() };
            let head = prev.out + sep;
            lemma_space_tail(prev.out, prev.pending);
            lemma_space_tail(head, prev.pending);
            assert(o =~= (head + prev.pending).push(b));
            assert(o.drop_last() =~= head + prev.pending);
            if prev.started {
                assert(head.drop_last() =~= prev.out);
                assert(drop_top_commas(head) == drop_top_commas(prev.out));
            } else {
                assert(head =~= prev.out);
            }
            assert(drop_top_commas(o) =~= s);
            // Every top-level comma but a new one stands where it stood.
            lemma_extend_keeps(po, Seq::empty());
            assert forall|i: int| top_comma(o, i) implies between_objects(o, i) by {
                if i < prev.out.len() {
                    assert(o.subrange(0, i) =~= po.subrange(0, i));
                    assert(o[i] == po[i]);
                    assert(top_comma(po, i));
                    let j = choose|j: int|
                        i < j < po.len() && po[j] == 123u8 && (forall|k: int|
                            i < k < j ==> is_json_space(#[trigger] po[k]));
                    if j >= prev.out.len() {
                        assert(po[j] == prev.pending[j - prev.out.len()]);
                        assert(is_json_space(prev.pending[j - prev.out.len()]));
                    }
                    assert(o[i - 1] == po[i - 1]);
                    assert(o[j] == po[j]);
                    assert forall|k: int| i < k < j implies is_json_space(#[trigger] o[k]) by {
                        assert(o[k] == po[k]);
                    }
                } else if i == prev.out.len() && prev.started {
                    let j = o.len() - 1;
                    assert(o[i - 1] == prev.out.last());
                    assert(o[j] == 123u8);
                    assert forall|k: int| i < k < j implies is_json_space(#[trigger] o[k]) by {
                        assert(o[k] == prev.pending[k - i - 1]);
                    }
                } else if i < (head + prev.pending).len() {
                    assert(o.subrange(0, i) =~= (head + prev.pending).subrange(0, i));
                    assert(o[i] == (head + prev.pending)[i]);
                } else {
                    assert(o[i] == 123u8);
                }
            }
        } else {
            // Whitespace at the top level waits in `pending`.
            assert(o =~= po.push(b));
            assert(o.drop_last() =~= po);
            assert(all_space(st.pending)) by {
                assert forall|k: int| 0 <= k < st.pending.len() implies is_json_space(
                    #[trigger] st.pending[k],
                ) by {
                    if k < prev.pending.len() {
                        assert(st.pending[k] == prev.pending[k]);
                    }
                }
            }
            lemma_extend_keeps(po, seq![b]);
            assert(po + seq![b] =~= o);
            assert forall|i: int| top_comma(o, i) implies between_objects(o, i) by {
                if i == po.len() {
                    assert(o.subrange(0, i) =~= po);
                }
            }
        }
    }
}

/// Rewrites the concatenated objects of `body` as one JSON array.
pub fn repair_stream(body: &[u8]) -> (r: Result<Vec<u8>, TransportError>)
    ensures
        match r {
            Ok(v) => repair_spec(body@) == Ok::<Seq<u8>, TransportError>(v@),
            Err(e) => repair_spec(body@) == Err::<Seq<u8>, TransportError>(e),
        },
{
    let mut out: Vec<u8> = Vec::new();
    out.push(91u8);
    let mut depth: usize = 0;
    let mut in_string = false;
    let mut escaped = false;
    let mut started = false;
    let mut pending: Vec<u8> = Vec::new();
    let mut i: usize = 0;
    while i < body.len()
        invariant
            i <= body@.len(),
            depth <= i,
            ({
                let st = scan(body@.subrange(0, i as int));
                &&& !st.bad
                &&& st.depth == depth as nat
                &&& st.in_string == in_string
                &&& st.escaped == escaped
                &&& st.started == started
                &&& out@ == seq![91u8] + st.out
                &&& pending@ == st.pending
            }),
        decreases body@.len() - i,
    {
        let b = body[i];
        proof {
            let sub = body@.subrange(0, i + 1);
            assert(sub.drop_last() =~= body@.subrange(0, i as int));
            assert(sub.last() == b);
        }
        let ghost before = out@;
        if in_string {
            out.push(b);
            if escaped {
                escaped = false;
            } else if b == 92u8 {
                escaped = true;
            } else if b == 34u8 {
                in_string = false;
            }
        } else if b == 123u8 {
            if depth == 0 {
                if started {
                    out.push(44u8);
                }
                push_bytes(&mut out, pending.as_slice());
                pending = Vec::new();
                started = true;
            }
            out.push(b);
            depth = depth + 1;
        } else if b == 125u8 {
            if depth == 0 {
                proof {
                    assert(scan(body@.subrange(0, i + 1)).bad);
                    lemma_bad_stays(body@, i + 1);
                    assert(body@.subrange(0, body@.len() as int) =~= body@);
                }
                return Err(TransportError::MalformedStreamError);
            }
            out.push(b);
            depth = depth - 1;
        } else if depth == 0 {
            if !(b == 32u8 || b == 9u8 || b == 10u8 || b == 13u8) {
                proof {
                    assert(scan(body@.subrange(0, i + 1)).bad);
                    lemma_bad_stays(body@, i + 1);
                    assert(body@.subrange(0, body@.len() as int) =~= body@);
                }
                return Err(TransportError::MalformedStreamError);
            }
            pending.push(b);
        } else {
            if b == 34u8 {
                in_string = true;
            }
            out.push(b);
        }
        proof {
            let st = scan(body@.subrange(0, i as int));
            let st2 = scan(body@.subrange(0, i + 1));
            assert(st2 == scan_step(st, b));
            assert(out@ =~= seq![91u8] + st2.out);
            assert(pending@ =~= st2.pending);
        }
        i = i + 1;
    }
    proof {
        assert(body@.subrange(0, body@.len() as int) =~= body@);
    }
    if depth != 0 || in_string {
        return Err(TransportError::MalformedStreamError);
    }
    push_bytes(&mut out, pending.as_slice());
    out.push(93u8);
    proof {
        assert(out@ =~= seq![91u8] + scan(body@).out + scan(body@).pending + seq![93u8]);
    }
    Ok(out)
}

/// Once the scan has failed, it stays failed.
proof fn lemma_bad_stays(s: Seq<u8>, i: int)
    requires
        0 <= i <= s.len(),
        scan(s.subrange(0, i)).bad,
    ensures
        scan(s).bad,
    decreases s.len() - i,
{
    if i < s.len() {
        let sub = s.subrange(0, i + 1);
        assert(sub.drop_last() =~= s.subrange(0, i));
        lemma_bad_stays(s, i + 1);
    } else {
        assert(s.subrange(0, i) =~= s);
    }
}

} // verus!
