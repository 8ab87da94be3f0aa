//! HTTP helpers of the router: query strings, server-sent events, and the
//! WebSocket opening handshake.
use vstd::prelude::*;
use vstd::string::StringSliceAdditionalSpecFns;
use vstd::utf8::encode_utf8;
use bytes::Bytes;
use crate::buf::bytes_view;
use crate::text::{chars_of, string_of_range, string_push, push_chars, trim_bounds, trim, utf8_lossy,
    string_from_utf8_lossy};
use crate::route::{split, split_ranges, lemma_split_len};

verus! {

// ---------------------------------------------------------------------------
// Percent-decoding
// ---------------------------------------------------------------------------

pub open spec fn hex_digit(c: u8) -> Option<nat> {
    if 0x30 <= c <= 0x39 {
        Some((c - 0x30) as nat)
    } else if 0x61 <= c <= 0x66 {
        Some((c - 0x61 + 10) as nat)
    } else if 0x41 <= c <= 0x46 {
        Some((c - 0x41 + 10) as nat)
    } else {
        None
    }
}

/// What `u8::from_str_radix(.., 16)` makes of two characters: two hex
/// digits, or `+` and one hex digit.
pub open spec fn hex_byte(c1: u8, c2: u8) -> Option<u8> {
    if c1 == 0x2b {
        match hex_digit(c2) {
            Some(d) => Some(d as u8),
            None => None,
        }
    } else {
        match (hex_digit(c1), hex_digit(c2)) {
            (Some(a), Some(b)) => Some((a * 16 + b) as u8),
            _ => None,
        }
    }
}

pub open spec fn is_continuation(b: u8) -> bool {
    0x80 <= b < 0xc0
}

pub open spec fn then_push_front(x: u8, r: Option<Seq<u8>>) -> Option<Seq<u8>> {
    match r {
        Some(s) => Some(seq![x] + s),
        None => None,
    }
}

/// Decodes `b[i..]`: `+` is a space, `%` and two hex digits one byte (a `%`
/// not followed by them stays as it is); `None` where the two characters
/// after a `%` end inside a multi-byte character, which cannot be sliced
/// off.
pub open spec fn pct_from(b: Seq<u8>, i: int) -> Option<Seq<u8>>
    decreases b.len() - i,
{
    if i < 0 || i >= b.len() {
        Some(Seq::empty())
    } else if b[i] == 0x2b {
        then_push_front(0x20, pct_from(b, i + 1))
    } else if b[i] == 0x25 && i + 2 < b.len() {
        if i + 3 < b.len() && is_continuation(b[i + 3]) {
            None
        } else {
            match hex_byte(b[i + 1], b[i + 2]) {
                Some(x) => then_push_front(x, pct_from(b, i + 3)),
                None => then_push_front(0x25, pct_from(b, i + 1)),
            }
        }
    } else {
        then_push_front(b[i], pct_from(b, i + 1))
    }
}

/// The byte `c` writes the number `d` (below 16) as a hexadecimal digit, in
/// lower or upper case.
pub open spec fn hex_digit_for(c: u8, d: nat) -> bool {
    if d < 10 {
        c == 0x30 + d
    } else {
        c == 0x61 + (d - 10) || c == 0x41 + (d - 10)
    }
}

/// A `%` followed by the two hexadecimal digits of a byte `x` (high digit
/// first, each in either case) decodes to `x`, and decoding goes on after
/// them; unless the next byte continues a multi-byte character, which the
/// escape cannot be cut from.
pub proof fn percent_escape_decodes_to_its_byte(b: Seq<u8>, i: int, x: u8)
    requires
        0 <= i,
        i + 3 <= b.len(),
        b[i] == 0x25,
        hex_digit_for(b[i + 1], (x / 16) as nat),
        hex_digit_for(b[i + 2], (x % 16) as nat),
        i + 3 < b.len() ==> !(0x80 <= b[i + 3] < 0xc0),
    ensures
        match pct_from(b, i + 3) {
            Some(rest) => pct_from(b, i) == Some(seq![x] + rest),
            None => pct_from(b, i) is None,
        },
{
    assert(hex_digit(b[i + 1]) == Some((x / 16) as nat));
    assert(hex_digit(b[i + 2]) == Some((x % 16) as nat));
    assert(((x / 16) * 16 + x % 16) as u8 == x);
}

/// A query-string component decoded: its UTF-8 bytes percent-decoded, then
/// read leniently as UTF-8.
pub open spec fn decode_component(s: Seq<char>) -> Option<Seq<char>> {
    match pct_from(encode_utf8(s), 0) {
        Some(b) => Some(utf8_lossy(b)),
        None => None,
    }
}

fn hex_digit_of(c: u8) -> (r: Option<u8>)
    ensures
        match hex_digit(c) {
            Some(d) => r == Some(d as u8),
            None => r is None,
        },
{
    if 0x30 <= c && c <= 0x39 {
        Some(c - 0x30)
    } else if 0x61 <= c && c <= 0x66 {
        Some(c - 0x61 + 10)
    } else if 0x41 <= c && c <= 0x46 {
        Some(c - 0x41 + 10)
    } else {
        None
    }
}

fn hex_byte_of(c1: u8, c2: u8) -> (r: Option<u8>)
    ensures
        r == hex_byte(c1, c2),
{
    if c1 == 0x2b {
        hex_digit_of(c2)
    } else {
        match (hex_digit_of(c1), hex_digit_of(c2)) {
            (Some(a), Some(b)) => Some(a * 16 + b),
            _ => None,
        }
    }
}

/// Percent-decodes `s` (see [`decode_component`]); `None` where the
/// decoding would have to cut a multi-byte character.
pub fn percent_decode(s: &str) -> (r: Option<String>)
    ensures
        match decode_component(s@) {
            Some(d) => r matches Some(x) && x@ == d,
            None => r is None,
        },
{
    let bytes = s.as_bytes();
    let ghost b = bytes@;
    let mut out: Vec<u8> = Vec::new();
    let mut i: usize = 0;
    assert(out@ + Seq::<u8>::empty() =~= out@);
    while i < bytes.len()
        invariant
            i <= bytes@.len(),
            b == bytes@,
            b == s.spec_bytes(),
            match pct_from(b, 0) {
                Some(all) => pct_from(b, i as int) matches Some(rest) && all == out@ + rest,
                None => pct_from(b, i as int) is None,
            },
        decreases bytes@.len() - i,
    {
        let c = bytes[i];
        let ghost o = out@;
        if c == 0x2b {
            out.push(0x20);
            i = i + 1;
        } else if c == 0x25 && bytes.len() - i > 2 {
            if bytes.len() - i > 3 && 0x80 <= bytes[i + 3] && bytes[i + 3] < 0xc0 {
                return None;
            }
            match hex_byte_of(bytes[i + 1], bytes[i + 2]) {
                Some(x) => {
                    out.push(x);
                    i = i + 3;
                },
                None => {
                    out.push(0x25);
                    i = i + 1;
                },
            }
        } else {
            out.push(c);
            i = i + 1;
        }
        proof {
            match pct_from(b, 0) {
                Some(all) => {
                    let rest = pct_from(b, i as int)->0;
                    assert(all =~= out@ + rest);
                },
                None => {},
            }
        }
    }
    assert(out@ + Seq::<u8>::empty() =~= out@);
    Some(string_from_utf8_lossy(out.as_slice()))
}

/// The first `c` in `s`, at or after `i`.
pub open spec fn find_char(s: Seq<char>, c: char, i: int) -> Option<int>
    decreases s.len() - i,
{
    if i < 0 || i >= s.len() {
        None
    } else if s[i] == c {
        Some(i)
    } else {
        find_char(s, c, i + 1)
    }
}

/// `(key, value)` of one `key=value` piece: split at the first `=`, a piece
/// without one being a key with an empty value.
pub open spec fn key_value(p: Seq<char>) -> (Seq<char>, Seq<char>) {
    match find_char(p, '=', 0) {
        Some(e) => (p.subrange(0, e), p.subrange(e + 1, p.len() as int)),
        None => (p, Seq::empty()),
    }
}

/// The decoded pairs of the non-empty `&`-separated pieces of `ps`, in
/// order; `None` if a component cannot be decoded.
pub open spec fn query_pairs_of(ps: Seq<Seq<char>>) -> Option<Seq<(Seq<char>, Seq<char>)>>
    decreases ps.len(),
{
    if ps.len() == 0 {
        Some(Seq::empty())
    } else {
        match query_pairs_of(ps.drop_last()) {
            None => None,
            Some(r) => if ps.last().len() == 0 {
                Some(r)
            } else {
                let (k, v) = key_value(ps.last());
                match (decode_component(k), decode_component(v)) {
                    (Some(dk), Some(dv)) => Some(r.push((dk, dv))),
                    _ => None,
                }
            },
        }
    }
}

/// The parameters of a query string (`a=1&b=2`), decoded, in order; a key
/// given twice counts with its last value.
pub open spec fn query_pairs(q: Seq<char>) -> Option<Seq<(Seq<char>, Seq<char>)>> {
    query_pairs_of(split(q, '&'))
}

proof fn lemma_find_char_skip(s: Seq<char>, c: char, i: int, j: int)
    requires
        0 <= i <= j <= s.len(),
        forall|m: int| i <= m < j ==> s[m] != c,
    ensures
        find_char(s, c, i) == find_char(s, c, j),
    decreases j - i,
{
    if i < j {
        lemma_find_char_skip(s, c, i + 1, j);
    }
}

pub fn query_params(query: &str) -> (r: Option<Vec<(String, String)>>)
    ensures
        match query_pairs(query@) {
            Some(ps) => r matches Some(v) && crate::route::pairs_model(v@) == ps,
            None => r is None,
        },
{
    let v = chars_of(query);
    let ranges = split_ranges(&v, 0, v.len(), '&');
    let ghost sp = split(v@, '&');
    assert(v@.subrange(0, v@.len() as int) =~= v@);
    let mut out: Vec<(String, String)> = Vec::new();
    let mut k: usize = 0;
    assert(sp.subrange(0, 0) =~= Seq::<Seq<char>>::empty());
    while k < ranges.len()
        invariant
            k <= ranges@.len(),
            v@ == query@,
            sp == split(v@, '&'),
            ranges@.len() == sp.len(),
            forall|j: int|
                0 <= j < ranges@.len() ==> 0 <= (#[trigger] ranges@[j]).0 <= ranges@[j].1 <= v@.len()
                    && v@.subrange(ranges@[j].0 as int, ranges@[j].1 as int) == sp[j],
            query_pairs_of(sp.subrange(0, k as int)) == Some(crate::route::pairs_model(out@)),
        decreases ranges@.len() - k,
    {
        let (x, y) = ranges[k];
        assert(sp.subrange(0, k + 1).drop_last() =~= sp.subrange(0, k as int));
        assert(ranges@[k as int] == (x, y));
        let ghost piece = v@.subrange(x as int, y as int);
        if x < y {
            let mut e = x;
            while e < y && v[e] != '='
                invariant
                    x <= e <= y <= v@.len(),
                    piece == v@.subrange(x as int, y as int),
                    find_char(piece, '=', 0) == find_char(piece, '=', e - x),
                decreases y - e,
            {
                proof {
                    lemma_find_char_skip(piece, '=', e - x, e - x + 1);
                }
                e = e + 1;
            }
            let key;
            let value;
            if e < y {
                key = string_of_range(&v, x, e);
                value = string_of_range(&v, e + 1, y);
                assert(key@ =~= piece.subrange(0, e - x));
                assert(value@ =~= piece.subrange(e - x + 1, piece.len() as int));
            } else {
                key = string_of_range(&v, x, y);
                value = String::new();
            }
            let dk = percent_decode(key.as_str());
            let dv = percent_decode(value.as_str());
            match (dk, dv) {
                (Some(a), Some(b)) => {
                    let ghost before = out@;
                    out.push((a, b));
                    assert(crate::route::pairs_model(out@) =~= crate::route::pairs_model(before).push(
                        (a@, b@),
                    ));
                },
                _ => {
                    proof {
                        lemma_query_none_stays(sp, k + 1, sp.len() as int);
                    }
                    assert(sp.subrange(0, sp.len() as int) =~= sp);
                    return None;
                },
            }
        }
        k = k + 1;
    }
    assert(sp.subrange(0, sp.len() as int) =~= sp);
    Some(out)
}

proof fn lemma_query_none_stays(sp: Seq<Seq<char>>, i: int, n: int)
    requires
        0 <= i <= n <= sp.len(),
        query_pairs_of(sp.subrange(0, i)) is None,
    ensures
        query_pairs_of(sp.subrange(0, n)) is None,
    decreases n - i,
{
    if i < n {
        assert(sp.subrange(0, i + 1).drop_last() =~= sp.subrange(0, i));
        lemma_query_none_stays(sp, i + 1, n);
    }
}

// ---------------------------------------------------------------------------
// Server-sent events
// ---------------------------------------------------------------------------

/// `Bytes::from(String)`: the string's UTF-8 bytes.
#[verifier::external_body]
fn bytes_from_string(s: String) -> (r: Bytes)
    ensures
        bytes_view(r) == encode_utf8(s@),
{
    Bytes::from(s)
}

/// One server-sent event: an optional `event:` type and its data.
pub struct SseEvent {
    pub event_type: Option<&'static str>,
    pub data: String,
}

/// `data: ` and the line, for each line of `lines`.
pub open spec fn data_lines(lines: Seq<Seq<char>>) -> Seq<char>
    decreases lines.len(),
{
    if lines.len() == 0 {
        Seq::empty()
    } else {
        data_lines(lines.drop_last()) + "data: "@ + lines.last() + seq!['\n']
    }
}

/// The wire text of an event: an `event:` line when it has a type, a
/// `data:` line per line of its data, then an empty line.
pub open spec fn sse_text(event_type: Option<Seq<char>>, data: Seq<char>) -> Seq<char> {
    (match event_type {
        Some(t) => "event: "@ + t + seq!['\n'],
        None => Seq::empty(),
    }) + data_lines(split(data, '\n')) + seq!['\n']
}

impl SseEvent {
    pub fn encode(&self) -> (r: Bytes)
        ensures
            bytes_view(r) == encode_utf8(
                sse_text(
                    match self.event_type {
                        Some(t) => Some(t@),
                        None => None,
                    },
                    self.data@,
                ),
            ),
    {
        let mut out = String::new();
        match self.event_type {
            Some(ty) => {
                out.append("event: ");
                out.append(ty);
                string_push(&mut out, '\n');
            },
            None => {},
        }
        let ghost head = out@;
        let v = chars_of(self.data.as_str());
        let ranges = split_ranges(&v, 0, v.len(), '\n');
        let ghost sp = split(v@, '\n');
        assert(v@.subrange(0, v@.len() as int) =~= v@);
        let mut k: usize = 0;
        assert(sp.subrange(0, 0) =~= Seq::<Seq<char>>::empty());
        assert(out@ =~= head + data_lines(sp.subrange(0, 0)));
        while k < ranges.len()
            invariant
                k <= ranges@.len(),
                sp == split(v@, '\n'),
                v@ == self.data@,
                ranges@.len() == sp.len(),
                forall|j: int|
                    0 <= j < ranges@.len() ==> 0 <= (#[trigger] ranges@[j]).0 <= ranges@[j].1 <= v@.len()
                        && v@.subrange(ranges@[j].0 as int, ranges@[j].1 as int) == sp[j],
                out@ == head + data_lines(sp.subrange(0, k as int)),
            decreases ranges@.len() - k,
        {
            let (x, y) = ranges[k];
            assert(ranges@[k as int] == (x, y));
            assert(sp.subrange(0, k + 1).drop_last() =~= sp.subrange(0, k as int));
            out.append("data: ");
            let line = string_of_range(&v, x, y);
            out.append(line.as_str());
            string_push(&mut out, '\n');
            k = k + 1;
            assert(out@ =~= head + data_lines(sp.subrange(0, k as int)));
        }
        assert(sp.subrange(0, sp.len() as int) =~= sp);
        string_push(&mut out, '\n');
        assert(out@ =~= sse_text(
            match self.event_type {
                Some(t) => Some(t@),
                None => None,
            },
            self.data@,
        ));
        bytes_from_string(out)
    }
}

// ---------------------------------------------------------------------------
// WebSocket handshake
// ---------------------------------------------------------------------------

pub open spec fn b64_char(n: nat) -> char {
    if n < 26 {
        (n + 0x41) as char
    } else if n < 52 {
        (n - 26 + 0x61) as char
    } else if n < 62 {
        (n - 52 + 0x30) as char
    } else if n == 62 {
        '+'
    } else {
        '/'
    }
}

/// Standard base64 with `=` padding.
pub open spec fn base64(b: Seq<u8>) -> Seq<char>
    decreases b.len(),
{
    if b.len() == 0 {
        Seq::empty()
    } else if b.len() == 1 {
        seq![b64_char((b[0] / 4) as nat), b64_char(((b[0] % 4) * 16) as nat), '=', '=']
    } else if b.len() == 2 {
        seq![
            b64_char((b[0] / 4) as nat),
            b64_char(((b[0] % 4) * 16 + b[1] / 16) as nat),
            b64_char(((b[1] % 16) * 4) as nat),
            '=',
        ]
    } else {
        seq![
            b64_char((b[0] / 4) as nat),
            b64_char(((b[0] % 4) * 16 + b[1] / 16) as nat),
            b64_char(((b[1] % 16) * 4 + b[2] / 64) as nat),
            b64_char((b[2] % 64) as nat),
        ] + base64(b.subrange(3, b.len() as int))
    }
}

fn b64_char_of(n: u8) -> (c: char)
    requires
        n < 64,
    ensures
        c == b64_char(n as nat),
{
    if n < 26 {
        (n + 0x41) as char
    } else if n < 52 {
        (n - 26 + 0x61) as char
    } else if n < 62 {
        (n - 52 + 0x30) as char
    } else if n == 62 {
        '+'
    } else {
        '/'
    }
}

proof fn lemma_base64_split(b: Seq<u8>, i: int)
    requires
        0 <= i <= b.len(),
        i % 3 == 0,
    ensures
        base64(b) == base64(b.subrange(0, i)) + base64(b.subrange(i, b.len() as int)),
    decreases i,
{
    if i == 0 {
        assert(b.subrange(0, 0) =~= Seq::<u8>::empty());
        assert(b.subrange(0, b.len() as int) =~= b);
        assert(Seq::<char>::empty() + base64(b) =~= base64(b));
    } else {
        lemma_base64_split(b, i - 3);
        let p = b.subrange(0, i);
        assert(p.subrange(0, i - 3) =~= b.subrange(0, i - 3));
        assert(p.subrange(i - 3, i) =~= b.subrange(i - 3, i));
        lemma_base64_split(p, i - 3);
        let t = b.subrange(i - 3, b.len() as int);
        assert(t.subrange(3, t.len() as int) =~= b.subrange(i, b.len() as int));
        assert(b.subrange(i - 3, i).subrange(3, 3) =~= Seq::<u8>::empty());
        assert(base64(b.subrange(i - 3, i)) == seq![
            b64_char((b[i - 3] / 4) as nat),
            b64_char(((b[i - 3] % 4) * 16 + b[i - 2] / 16) as nat),
            b64_char(((b[i - 2] % 16) * 4 + b[i - 1] / 64) as nat),
            b64_char((b[i - 1] % 64) as nat),
        ] + base64(Seq::<u8>::empty()));
        assert(base64(t) == base64(b.subrange(i - 3, i)) + base64(b.subrange(i, b.len() as int)));
    }
}

/// Base64 of `bytes` (standard alphabet, padded).
pub fn base64_encode(bytes: &[u8]) -> (s: String)
    ensures
        s@ == base64(bytes@),
{
    let mut out = String::new();
    let mut i: usize = 0;
    let n = bytes.len();
    assert(bytes@.subrange(0, 0) =~= Seq::<u8>::empty());
    while n - i >= 3
        invariant
            i <= n,
            n == bytes@.len(),
            i % 3 == 0,
            out@ == base64(bytes@.subrange(0, i as int)),
        decreases n - i,
    {
        let b0 = bytes[i];
        let b1 = bytes[i + 1];
        let b2 = bytes[i + 2];
        string_push(&mut out, b64_char_of(b0 / 4));
        string_push(&mut out, b64_char_of((b0 % 4) * 16 + b1 / 16));
        string_push(&mut out, b64_char_of((b1 % 16) * 4 + b2 / 64));
        string_push(&mut out, b64_char_of(b2 % 64));
        proof {
            let c = bytes@.subrange(i as int, i + 3);
            assert(c.subrange(3, 3) =~= Seq::<u8>::empty());
            assert(c[0] == b0 && c[1] == b1 && c[2] == b2);
            assert(base64(Seq::<u8>::empty()) == Seq::<char>::empty());
            assert(base64(c) =~= seq![
                b64_char((b0 / 4) as nat),
                b64_char(((b0 % 4) * 16 + b1 / 16) as nat),
                b64_char(((b1 % 16) * 4 + b2 / 64) as nat),
                b64_char((b2 % 64) as nat),
            ]);
            assert(bytes@.subrange(0, i + 3).subrange(0, i as int) =~= bytes@.subrange(0, i as int));
            assert(bytes@.subrange(0, i + 3).subrange(i as int, i + 3) =~= c);
            lemma_base64_split(bytes@.subrange(0, i + 3), i as int);
        }
        i = i + 3;
    }
    let ghost tail = bytes@.subrange(i as int, n as int);
    if n - i == 1 {
        let b0 = bytes[i];
        string_push(&mut out, b64_char_of(b0 / 4));
        string_push(&mut out, b64_char_of((b0 % 4) * 16));
        string_push(&mut out, '=');
        string_push(&mut out, '=');
    } else if n - i == 2 {
        let b0 = bytes[i];
        let b1 = bytes[i + 1];
        string_push(&mut out, b64_char_of(b0 / 4));
        string_push(&mut out, b64_char_of((b0 % 4) * 16 + b1 / 16));
        string_push(&mut out, b64_char_of((b1 % 16) * 4));
        string_push(&mut out, '=');
    }
    proof {
        lemma_base64_split(bytes@, i as int);
        if n - i == 0 {
            assert(tail =~= Seq::<u8>::empty());
        }
    }
    assert(out@ =~= base64(bytes@));
    out
}

/// A name for the SHA-1 digest of `data`.
pub uninterp spec fn sha1_digest(data: Seq<u8>) -> Seq<u8>;

/// `<sha1::Sha1 as Digest>::digest`: the 20-byte SHA-1 digest of `data`.
#[verifier::external_body]
fn sha1(data: &[u8]) -> (r: Vec<u8>)
    ensures
        r@ == sha1_digest(data@),
        r@.len() == 20,
{
    <sha1::Sha1 as sha1::Digest>::digest(data).to_vec()
}

/// The GUID RFC 6455 appends to the client's key.
pub open spec fn ws_guid() -> Seq<char> {
    "258EAFA5-E914-47DA-95CA-C5AB0DC85B11"@
}

/// `Sec-WebSocket-Accept` for a client's `Sec-WebSocket-Key`: base64 of
/// the SHA-1 of the key followed by the GUID.
pub open spec fn accept_for(key: Seq<char>) -> Seq<char> {
    base64(sha1_digest(encode_utf8(key) + encode_utf8(ws_guid())))
}

pub fn accept_key(client_key: &str) -> (r: String)
    ensures
        r@ == accept_for(client_key@),
{
    let mut data: Vec<u8> = Vec::new();
    let k = client_key.as_bytes();
    let g = "258EAFA5-E914-47DA-95CA-C5AB0DC85B11".as_bytes();
    let mut i: usize = 0;
    while i < k.len()
        invariant
            i <= k@.len(),
            data@ == k@.subrange(0, i as int),
        decreases k@.len() - i,
    {
        data.push(k[i]);
        i = i + 1;
        assert(data@ =~= k@.subrange(0, i as int));
    }
    let mut j: usize = 0;
    while j < g.len()
        invariant
            i == k@.len(),
            j <= g@.len(),
            data@ == k@ + g@.subrange(0, j as int),
        decreases g@.len() - j,
    {
        data.push(g[j]);
        j = j + 1;
        assert(data@ =~= k@ + g@.subrange(0, j as int));
    }
    assert(k@.subrange(0, k@.len() as int) =~= k@);
    assert(g@.subrange(0, g@.len() as int) =~= g@);
    let d = sha1(data.as_slice());
    base64_encode(d.as_slice())
}

pub open spec fn ascii_lower(c: char) -> char {
    if 'A' <= c <= 'Z' {
        ((c as u32) + 32) as char
    } else {
        c
    }
}

/// Equal but for the case of ASCII letters.
pub open spec fn eq_ignore_ascii_case(a: Seq<char>, b: Seq<char>) -> bool {
    a.len() == b.len() && forall|i: int| 0 <= i < a.len() ==> ascii_lower(a[i]) == ascii_lower(b[i])
}

/// Whether a comma-separated header value lists `token` (trimmed, case
/// ignored).
pub open spec fn has_token(value: Seq<char>, token: Seq<char>) -> bool {
    exists|k: int|
        0 <= k < split(value, ',').len() && eq_ignore_ascii_case(
            trim(#[trigger] split(value, ',')[k]),
            token,
        )
}

fn lower_of(c: char) -> (r: char)
    ensures
        r == ascii_lower(c),
{
    if 'A' <= c && c <= 'Z' {
        (((c as u32) + 32) as u8) as char
    } else {
        c
    }
}

fn range_eq_ignore_case(v: &Vec<char>, a: usize, b: usize, t: &Vec<char>) -> (r: bool)
    requires
        a <= b <= v@.len(),
    ensures
        r == eq_ignore_ascii_case(v@.subrange(a as int, b as int), t@),
{
    if b - a != t.len() {
        return false;
    }
    let mut i: usize = 0;
    while i < t.len()
        invariant
            i <= t@.len(),
            a <= b <= v@.len(),
            b - a == t@.len(),
            forall|m: int| 0 <= m < i ==> ascii_lower(v@[a + m]) == ascii_lower(t@[m]),
        decreases t@.len() - i,
    {
        if lower_of(v[a + i]) != lower_of(t[i]) {
            assert(v@.subrange(a as int, b as int)[i as int] == v@[a + i]);
            return false;
        }
        i = i + 1;
    }
    proof {
        let s = v@.subrange(a as int, b as int);
        assert forall|m: int| 0 <= m < s.len() implies ascii_lower(s[m]) == ascii_lower(t@[m]) by {
            assert(s[m] == v@[a + m]);
        }
    }
    true
}

fn header_has_token(value: Option<&str>, token: &str) -> (r: bool)
    ensures
        r == match value {
            Some(v) => has_token(v@, token@),
            None => false,
        },
{
    let text = match value {
        Some(v) => v,
        None => return false,
    };
    let v = chars_of(text);
    let t = chars_of(token);
    let ranges = split_ranges(&v, 0, v.len(), ',');
    let ghost sp = split(v@, ',');
    assert(v@.subrange(0, v@.len() as int) =~= v@);
    let mut k: usize = 0;
    while k < ranges.len()
        invariant
            k <= ranges@.len(),
            sp == split(v@, ','),
            v@ == text@,
            value == Some(text),
            t@ == token@,
            ranges@.len() == sp.len(),
            forall|j: int|
                0 <= j < ranges@.len() ==> 0 <= (#[trigger] ranges@[j]).0 <= ranges@[j].1 <= v@.len()
                    && v@.subrange(ranges@[j].0 as int, ranges@[j].1 as int) == sp[j],
            forall|j: int| 0 <= j < k ==> !eq_ignore_ascii_case(trim(#[trigger] sp[j]), token@),
        decreases ranges@.len() - k,
    {
        let (x, y) = ranges[k];
        assert(ranges@[k as int] == (x, y));
        let (p, q) = trim_bounds(&v, x, y);
        if range_eq_ignore_case(&v, p, q, &t) {
            assert(eq_ignore_ascii_case(trim(sp[k as int]), token@));
            assert(split(text@, ',')[k as int] == sp[k as int]);
            assert(has_token(text@, token@));
            return true;
        }
        k = k + 1;
    }
    false
}

/// The handshake's answer: the `Sec-WebSocket-Accept` value when the
/// `Upgrade` header lists `websocket`, `Connection` lists `upgrade`,
/// `Sec-WebSocket-Version` is `13` (trimmed) and a key is given.
pub open spec fn upgrade_answer(
    upgrade: Option<Seq<char>>,
    connection: Option<Seq<char>>,
    version: Option<Seq<char>>,
    key: Option<Seq<char>>,
) -> Option<Seq<char>> {
    let up = match upgrade {
        Some(u) => has_token(u, "websocket"@),
        None => false,
    };
    let conn = match connection {
        Some(c) => has_token(c, "upgrade"@),
        None => false,
    };
    let ver = match version {
        Some(v) => trim(v) == "13"@,
        None => false,
    };
    if up && conn && ver {
        match key {
            Some(k) => Some(accept_for(k)),
            None => None,
        }
    } else {
        None
    }
}

pub open spec fn opt_view(o: Option<&str>) -> Option<Seq<char>> {
    match o {
        Some(s) => Some(s@),
        None => None,
    }
}

/// Checks a WebSocket upgrade request's headers (each given as its text,
/// `None` when absent or not text) and computes the accept value.
pub fn validate_upgrade_request(
    upgrade: Option<&str>,
    connection: Option<&str>,
    version: Option<&str>,
    key: Option<&str>,
) -> (r: Option<String>)
    ensures
        match upgrade_answer(opt_view(upgrade), opt_view(connection), opt_view(version), opt_view(key)) {
            Some(a) => r matches Some(s) && s@ == a,
            None => r is None,
        },
{
    if !header_has_token(upgrade, "websocket") {
        return None;
    }
    if !header_has_token(connection, "upgrade") {
        return None;
    }
    let version_ok = match version {
        Some(v) => {
            let c = chars_of(v);
            let (p, q) = trim_bounds(&c, 0, c.len());
            assert(c@.subrange(0, c@.len() as int) =~= c@);
            let t = string_of_range(&c, p, q);
            t == "13".to_owned()
        },
        None => false,
    };
    if !version_ok {
        return None;
    }
    match key {
        Some(k) => Some(accept_key(k)),
        None => None,
    }
}

} // verus!
