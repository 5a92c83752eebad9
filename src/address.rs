//! The Address Resolver: a connection string `<scheme>://<location>`
//! names either a domain socket path or a network endpoint.
use vstd::prelude::*;
use crate::error::TransportError;

verus! {

/// Key, certificate and CA files for a TLS-secured network endpoint.
pub struct TlsBundle {
    pub key: String,
    pub cert: String,
    pub ca: String,
}

/// Where the engine listens.
pub enum Address {
    /// A local domain socket at `path`.
    Unix { path: String },
    /// A network endpoint, with TLS material when it is secured.
    Tcp { host: String, port: u16, tls: Option<TlsBundle> },
}

/// What a connection string names.
pub enum AddressModel {
    Unix(Seq<char>),
    Tcp(Seq<char>, u16),
}

impl View for Address {
    type V = AddressModel;

    open spec fn view(&self) -> AddressModel {
        match self {
            Address::Unix { path } => AddressModel::Unix(path@),
            Address::Tcp { host, port, .. } => AddressModel::Tcp(host@, *port),
        }
    }
}

/// `s` holds `://` at `i`.
pub open spec fn delim_at(s: Seq<char>, i: int) -> bool {
    0 <= i && i + 3 <= s.len() && s[i] == ':' && s[i + 1] == '/' && s[i + 2] == '/'
}

/// The first `i >= from` where `s` holds `://`, or the length of `s`.
pub open spec fn first_delim(s: Seq<char>, from: int) -> int
    decreases s.len() - from,
{
    if from < 0 || from >= s.len() {
        s.len() as int
    } else if delim_at(s, from) {
        from
    } else {
        first_delim(s, from + 1)
    }
}

/// The last `i < to` where `s` holds `:`, or `-1`.
pub open spec fn last_colon(s: Seq<char>, to: int) -> int
    decreases to,
{
    if to <= 0 || to > s.len() {
        -1
    } else if s[to - 1] == ':' {
        to - 1
    } else {
        last_colon(s, to - 1)
    }
}

pub open spec fn is_digit_char(c: char) -> bool {
    '0' <= c && c <= '9'
}

/// The number written by decimal digit characters, most significant first.
pub open spec fn decimal_chars_value(d: Seq<char>) -> nat
    decreases d.len(),
{
    if d.len() == 0 {
        0
    } else {
        decimal_chars_value(d.drop_last()) * 10 + (d.last() as nat - '0' as nat) as nat
    }
}

/// A port: one to five digits whose value fits in 16 bits.
pub open spec fn port_of(d: Seq<char>) -> Option<u16> {
    if 0 < d.len() <= 5 && (forall|j: int| 0 <= j < d.len() ==> is_digit_char(#[trigger] d[j]))
        && decimal_chars_value(d) <= 65535 {
        Some(decimal_chars_value(d) as u16)
    } else {
        None
    }
}

pub open spec fn unix_scheme() -> Seq<char> {
    seq!['u', 'n', 'i', 'x']
}

pub open spec fn tcp_scheme() -> Seq<char> {
    seq!['t', 'c', 'p']
}

/// The network endpoint `host:port` of a location: split at its last
/// colon, with a non-empty host.
pub open spec fn tcp_location(loc: Seq<char>) -> Option<AddressModel> {
    let c = last_colon(loc, loc.len() as int);
    if c <= 0 {
        None
    } else {
        match port_of(loc.subrange(c + 1, loc.len() as int)) {
            Some(port) => Some(AddressModel::Tcp(loc.subrange(0, c), port)),
            None => None,
        }
    }
}

/// What the connection string `s` names, if it is valid: exactly one
/// `://`, a supported scheme before it and a non-empty location after it.
pub open spec fn parse_address(s: Seq<char>) -> Option<AddressModel> {
    let i = first_delim(s, 0);
    if i >= s.len() || exists|j: int| i < j && #[trigger] delim_at(s, j) {
        None
    } else {
        let scheme = s.subrange(0, i);
        let loc = s.subrange(i + 3, s.len() as int);
        if loc.len() == 0 {
            None
        } else if scheme == unix_scheme() {
            Some(AddressModel::Unix(loc))
        } else if scheme == tcp_scheme() {
            tcp_location(loc)
        } else {
            None
        }
    }
}

pub open spec fn delimiter() -> Seq<char> {
    seq![':', '/', '/']
}

/// `n` in decimal digits, without leading zeros.
pub open spec fn decimal_text(n: nat) -> Seq<char>
    decreases n,
{
    if n < 10 {
        seq![('0' as nat + n) as char]
    } else {
        decimal_text(n / 10).push(('0' as nat + n % 10) as char)
    }
}

proof fn lemma_first_delim(s: Seq<char>, from: int)
    requires
        0 <= from <= s.len(),
    ensures
        from <= first_delim(s, from),
        first_delim(s, from) < s.len() ==> delim_at(s, first_delim(s, from)),
        forall|j: int| from <= j && delim_at(s, j) ==> first_delim(s, from) <= j,
    decreases s.len() - from,
{
    if from < s.len() && !delim_at(s, from) {
        lemma_first_delim(s, from + 1);
    }
}

/// A connection string without exactly one `://` names nothing.
pub proof fn lemma_needs_one_delimiter(s: Seq<char>)
    requires
        (forall|i: int| !delim_at(s, i)) || (exists|i: int, j: int|
            i != j && delim_at(s, i) && delim_at(s, j)),
    ensures
        parse_address(s) is None,
{
    lemma_first_delim(s, 0);
    let f = first_delim(s, 0);
    if f < s.len() {
        let (i, j) = choose|i: int, j: int| i != j && delim_at(s, i) && delim_at(s, j);
        if i < j {
            assert(f < j && delim_at(s, j));
        } else {
            assert(f < i && delim_at(s, i));
        }
    }
}

/// Where `s` is a scheme of letters, `://` and a location without `://`,
/// the delimiter found is the one after the scheme and no other follows.
proof fn lemma_single_delimiter(scheme: Seq<char>, loc: Seq<char>)
    requires
        forall|j: int| 0 <= j < scheme.len() ==> #[trigger] scheme[j] != ':',
        forall|j: int| !delim_at(loc, j),
    ensures
        ({
            let s = scheme + delimiter() + loc;
            &&& first_delim(s, 0) == scheme.len()
            &&& !(exists|j: int| scheme.len() < j && #[trigger] delim_at(s, j))
            &&& s.subrange(0, scheme.len() as int) == scheme
            &&& s.subrange(scheme.len() as int + 3, s.len() as int) == loc
        }),
{
    let s = scheme + delimiter() + loc;
    let k = scheme.len() as int;
    lemma_first_delim(s, 0);
    assert(delim_at(s, k));
    assert forall|j: int| 0 <= j < k implies !delim_at(s, j) by {
        assert(s[j] == scheme[j]);
    }
    assert forall|j: int| k < j implies !#[trigger] delim_at(s, j) by {
        if j >= k + 3 && delim_at(s, j) {
            assert(s[j] == loc[j - k - 3]);
            assert(s[j + 1] == loc[j - k - 2]);
            assert(s[j + 2] == loc[j - k - 1]);
            assert(delim_at(loc, j - k - 3));
        }
    }
    assert(s.subrange(0, k) =~= scheme);
    assert(s.subrange(k + 3, s.len() as int) =~= loc);
}

/// A `unix://` string names the domain socket at exactly the text after
/// the delimiter.
pub proof fn lemma_unix_path_kept(path: Seq<char>)
    requires
        path.len() > 0,
        forall|j: int| !delim_at(path, j),
    ensures
        parse_address(unix_scheme() + delimiter() + path) == Some(AddressModel::Unix(path)),
{
    lemma_single_delimiter(unix_scheme(), path);
}

proof fn lemma_decimal_text(n: nat)
    ensures
        1 <= decimal_text(n).len(),
        forall|j: int| 0 <= j < decimal_text(n).len() ==> is_digit_char(#[trigger] decimal_text(n)[j]),
        decimal_chars_value(decimal_text(n)) == n,
        n < 100000 ==> decimal_text(n).len() <= 5,
        n < 10000 ==> decimal_text(n).len() <= 4,
        n < 1000 ==> decimal_text(n).len() <= 3,
        n < 100 ==> decimal_text(n).len() <= 2,
    decreases n,
{
    let t = decimal_text(n);
    let d = ('0' as nat + n % 10) as char;
    assert(d as nat == '0' as nat + n % 10);
    if n < 10 {
        assert(t.drop_last() =~= Seq::<char>::empty());
        assert(t.last() == d);
        assert(decimal_chars_value(t.drop_last()) == 0);
        assert(decimal_chars_value(t) == decimal_chars_value(t.drop_last()) * 10 + (t.last() as nat
            - '0' as nat) as nat);
    } else {
        assert(t.last() == d);
        lemma_decimal_text(n / 10);
        assert(t.drop_last() =~= decimal_text(n / 10));
        assert((n / 10) * 10 + n % 10 == n);
        assert(decimal_chars_value(t) == decimal_chars_value(t.drop_last()) * 10 + (t.last() as nat
            - '0' as nat) as nat);
        assert forall|j: int| 0 <= j < t.len() implies is_digit_char(#[trigger] t[j]) by {
            if j < t.len() - 1 {
                assert(t[j] == decimal_text(n / 10)[j]);
            }
        }
    }
}

/// A `tcp://host:port` string names exactly that host and port.
pub proof fn lemma_tcp_host_kept(host: Seq<char>, port: u16)
    requires
        host.len() > 0,
        forall|j: int| !delim_at(host + seq![':'] + decimal_text(port as nat), j),
    ensures
        parse_address(tcp_scheme() + delimiter() + (host + seq![':'] + decimal_text(port as nat)))
            == Some(AddressModel::Tcp(host, port)),
{
    let loc = host + seq![':'] + decimal_text(port as nat);
    lemma_single_delimiter(tcp_scheme(), loc);
    lemma_tcp_location(host, port);
    let s = tcp_scheme() + delimiter() + loc;
    assert(s.subrange(0, 3) == tcp_scheme());
    assert(tcp_scheme() != unix_scheme()) by {
        assert(tcp_scheme().len() != unix_scheme().len());
    }
}

proof fn lemma_tcp_location(host: Seq<char>, port: u16)
    requires
        host.len() > 0,
    ensures
        tcp_location(host + seq![':'] + decimal_text(port as nat)) == Some(
            AddressModel::Tcp(host, port),
        ),
{
    let d = decimal_text(port as nat);
    let loc = host + seq![':'] + d;
    lemma_decimal_text(port as nat);
    let c = host.len() as int;
    assert(loc[c] == ':');
    assert forall|j: int| c < j < loc.len() implies is_digit_char(#[trigger] loc[j]) by {
        assert(loc[j] == d[j - c - 1]);
    }
    lemma_last_colon_from(loc, c, loc.len() as int);
    assert(loc.subrange(c + 1, loc.len() as int) =~= d);
    assert(loc.subrange(0, c) =~= host);
}

proof fn lemma_last_colon_from(s: Seq<char>, c: int, k: int)
    requires
        0 <= c < k <= s.len(),
        s[c] == ':',
        forall|j: int| c < j < s.len() ==> is_digit_char(#[trigger] s[j]),
    ensures
        last_colon(s, k) == c,
    decreases k,
{
    if k - 1 > c {
        assert(is_digit_char(s[k - 1]));
        lemma_last_colon_from(s, c, k - 1);
    }
}

fn find_delim(s: &str, n: usize) -> (r: usize)
    requires
        n == s@.len(),
    ensures
        r == first_delim(s@, 0),
        r <= n,
        r < n ==> delim_at(s@, r as int),
{
    let mut i: usize = 0;
    while i < n
        invariant
            n == s@.len(),
            i <= n,
            first_delim(s@, 0) == first_delim(s@, i as int),
        decreases n - i,
    {
        if n - i >= 3 && s.get_char(i) == ':' && s.get_char(i + 1) == '/' && s.get_char(i + 2)
            == '/' {
            return i;
        }
        i = i + 1;
    }
    i
}

fn find_last_colon(s: &str, to: usize) -> (r: usize)
    requires
        to <= s@.len(),
    ensures
        r <= to,
        r < to ==> r as int == last_colon(s@, to as int),
        r == to ==> last_colon(s@, to as int) == -1,
{
    let mut j: usize = to;
    while j > 0
        invariant
            j <= to <= s@.len(),
            last_colon(s@, to as int) == last_colon(s@, j as int),
        decreases j,
    {
        if s.get_char(j - 1) == ':' {
            return j - 1;
        }
        j = j - 1;
    }
    to
}

/// Whether `s[from..to]` is exactly `word`.
pub fn chars_equal(s: &str, from: usize, to: usize, word: &str) -> (r: bool)
    requires
        from <= to <= s@.len(),
    ensures
        r == (s@.subrange(from as int, to as int) == word@),
{
    let n = word.unicode_len();
    if to - from != n {
        return false;
    }
    let mut k: usize = 0;
    while k < n
        invariant
            n == word@.len(),
            to - from == n,
            to <= s@.len(),
            k <= n,
            forall|j: int| 0 <= j < k ==> s@[from + j] == word@[j],
        decreases n - k,
    {
        if s.get_char(from + k) != word.get_char(k) {
            proof {
                assert(s@.subrange(from as int, to as int)[k as int] != word@[k as int]);
            }
            return false;
        }
        k = k + 1;
    }
    proof {
        assert(s@.subrange(from as int, to as int) =~= word@);
    }
    true
}

/// The port written in `s[from..to]`.
fn parse_port(s: &str, from: usize, to: usize) -> (r: Option<u16>)
    requires
        from <= to <= s@.len(),
    ensures
        r == port_of(s@.subrange(from as int, to as int)),
{
    let ghost d = s@.subrange(from as int, to as int);
    if to == from || to - from > 5 {
        return None;
    }
    let mut v: u32 = 0;
    let mut k: usize = from;
    while k < to
        invariant
            from <= k <= to <= s@.len(),
            to - from <= 5,
            d == s@.subrange(from as int, to as int),
            forall|j: int| 0 <= j < k - from ==> is_digit_char(#[trigger] d[j]),
            v as nat == decimal_chars_value(d.subrange(0, k - from)),
            v < 100000,
            k - from <= 4 ==> v < 10000,
            k - from <= 3 ==> v < 1000,
            k - from <= 2 ==> v < 100,
            k - from <= 1 ==> v < 10,
            k - from == 0 ==> v == 0,
        decreases to - k,
    {
        let c = s.get_char(k);
        if !('0' <= c && c <= '9') {
            proof {
                assert(d[k - from] == c);
            }
            return None;
        }
        proof {
            let sub = d.subrange(0, k - from + 1);
            assert(sub.drop_last() =~= d.subrange(0, k - from));
            assert(sub.last() == c);
        }
        v = v * 10 + (c as u32 - '0' as u32);
        k = k + 1;
    }
    proof {
        assert(d.subrange(0, d.len() as int) =~= d);
    }
    if v > 65535 {
        return None;
    }
    Some(v as u16)
}

/// Resolves a connection string to the address it names.
pub fn resolve(s: &str) -> (r: Result<Address, TransportError>)
    ensures
        match r {
            Ok(a) => parse_address(s@) == Some(a@) && (a matches Address::Tcp { tls, .. } ==> tls is None),
            Err(e) => parse_address(s@) is None && e == TransportError::InvalidAddress,
        },
{
    let n = s.unicode_len();
    let i = find_delim(s, n);
    if i >= n {
        return Err(TransportError::InvalidAddress);
    }
    let second = find_delim_from(s, n, i + 1);
    if second < n {
        return Err(TransportError::InvalidAddress);
    }
    let start = i + 3;
    if start == n {
        return Err(TransportError::InvalidAddress);
    }
    let ghost loc = s@.subrange(start as int, n as int);
    if chars_equal(s, 0, i, "unix") {
        proof {
            reveal_strlit("unix");
            assert("unix"@ =~= unix_scheme());
        }
        let path = s.substring_char(start, n).to_owned();
        return Ok(Address::Unix { path });
    }
    if !chars_equal(s, 0, i, "tcp") {
        proof {
            reveal_strlit("unix");
            reveal_strlit("tcp");
            assert("unix"@ =~= unix_scheme());
            assert("tcp"@ =~= tcp_scheme());
        }
        return Err(TransportError::InvalidAddress);
    }
    proof {
        reveal_strlit("unix");
        reveal_strlit("tcp");
        assert("unix"@ =~= unix_scheme());
        assert("tcp"@ =~= tcp_scheme());
    }
    let c = find_last_colon(s, n);
    proof {
        lemma_last_colon_shift(s@, start as int, n as int);
    }
    if c >= n || c <= start {
        return Err(TransportError::InvalidAddress);
    }
    proof {
        assert(loc.subrange(c - start + 1, loc.len() as int) =~= s@.subrange(c + 1, n as int));
        assert(loc.subrange(0, c - start) =~= s@.subrange(start as int, c as int));
    }
    match parse_port(s, c + 1, n) {
        Some(port) => {
            let host = s.substring_char(start, c).to_owned();
            Ok(Address::Tcp { host, port, tls: None })
        },
        None => Err(TransportError::InvalidAddress),
    }
}

/// The last colon of a location, found in the whole string.
proof fn lemma_last_colon_shift(s: Seq<char>, start: int, to: int)
    requires
        0 <= start <= to <= s.len(),
    ensures
        ({
            let loc = s.subrange(start, to);
            let c = last_colon(s, to);
            &&& c < start ==> last_colon(loc, loc.len() as int) == -1
            &&& c >= start ==> last_colon(loc, loc.len() as int) == c - start
        }),
{
    lemma_last_colon_within(s, start, to, to - start);
}

proof fn lemma_last_colon_within(s: Seq<char>, start: int, to: int, k: int)
    requires
        0 <= start <= to <= s.len(),
        0 <= k <= to - start,
    ensures
        ({
            let loc = s.subrange(start, to);
            let c = last_colon(s, start + k);
            &&& c < start ==> last_colon(loc, k) == -1
            &&& c >= start ==> last_colon(loc, k) == c - start
            &&& c < start + k
        }),
    decreases k,
{
    if k == 0 {
        lemma_last_colon_below(s, start);
    } else {
        let loc = s.subrange(start, to);
        assert(loc[k - 1] == s[start + k - 1]);
        lemma_last_colon_within(s, start, to, k - 1);
    }
}

proof fn lemma_last_colon_below(s: Seq<char>, to: int)
    ensures
        last_colon(s, to) < to || last_colon(s, to) == -1,
    decreases to,
{
    if 0 < to <= s.len() && s[to - 1] != ':' {
        lemma_last_colon_below(s, to - 1);
    }
}

fn find_delim_from(s: &str, n: usize, from: usize) -> (r: usize)
    requires
        n == s@.len(),
        from <= n,
    ensures
        r <= n,
        r < n ==> from <= r && delim_at(s@, r as int),
        r == n ==> forall|j: int| from <= j ==> !delim_at(s@, j),
{
    let mut i: usize = from;
    while i < n
        invariant
            n == s@.len(),
            from <= i <= n,
            forall|j: int| from <= j < i ==> !delim_at(s@, j),
        decreases n - i,
    {
        if n - i >= 3 && s.get_char(i) == ':' && s.get_char(i + 1) == '/' && s.get_char(i + 2)
            == '/' {
            return i;
        }
        i = i + 1;
    }
    i
}

} // verus!
