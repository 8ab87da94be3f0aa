//! `multipart/form-data` bodies (RFC 7578): the boundary parameter, part
//! headers, and splitting a body into its named fields.
use vstd::prelude::*;
use crate::text::{chars_of, string_of_range, trim_bounds, trim, utf8_lossy, string_from_utf8_lossy};
use crate::route::{split, split_ranges, lemma_split_len};
use crate::http::{ascii_lower, find_char};
use vstd::utf8::encode_utf8;
use vstd::string::StringSliceAdditionalSpecFns;

verus! {

// ---------------------------------------------------------------------------
// Text helpers
// ---------------------------------------------------------------------------

/// `s` starts with `p`.
pub open spec fn starts_with(s: Seq<char>, p: Seq<char>) -> bool {
    s.len() >= p.len() && s.subrange(0, p.len() as int) == p
}

/// `s` starts with `p`, ASCII letters compared without case.
pub open spec fn starts_with_ignore_case(s: Seq<char>, p: Seq<char>) -> bool {
    s.len() >= p.len() && forall|i: int| 0 <= i < p.len() ==> ascii_lower(#[trigger] s[i]) == ascii_lower(p[i])
}

pub open spec fn skip_quotes(s: Seq<char>, i: int) -> int
    decreases s.len() - i,
{
    if i < 0 || i >= s.len() {
        s.len() as int
    } else if s[i] == '"' {
        skip_quotes(s, i + 1)
    } else {
        i
    }
}

pub open spec fn skip_quotes_back(s: Seq<char>, lo: int, j: int) -> int
    decreases j - lo,
{
    if j <= lo {
        lo
    } else if s[j - 1] == '"' {
        skip_quotes_back(s, lo, j - 1)
    } else {
        j
    }
}

/// `s` without leading and trailing `"` (`str::trim_matches('"')`).
pub open spec fn trim_quotes(s: Seq<char>) -> Seq<char> {
    let a = skip_quotes(s, 0);
    s.subrange(a, skip_quotes_back(s, a, s.len() as int))
}

fn trim_quote_bounds(v: &Vec<char>, a: usize, b: usize) -> (r: (usize, usize))
    requires
        a <= b <= v@.len(),
    ensures
        a <= r.0 <= r.1 <= b,
        v@.subrange(r.0 as int, r.1 as int) == trim_quotes(v@.subrange(a as int, b as int)),
{
    let ghost s = v@.subrange(a as int, b as int);
    let mut i = a;
    while i < b && v[i] == '"'
        invariant
            a <= i <= b <= v@.len(),
            s == v@.subrange(a as int, b as int),
            skip_quotes(s, 0) == skip_quotes(s, i - a),
        decreases b - i,
    {
        i = i + 1;
    }
    proof {
        lemma_skip_quotes_bound(s, i - a);
    }
    let mut j = b;
    while j > i && v[j - 1] == '"'
        invariant
            a <= i <= j <= b <= v@.len(),
            s == v@.subrange(a as int, b as int),
            skip_quotes(s, 0) == i - a,
            skip_quotes_back(s, i - a, s.len() as int) == skip_quotes_back(s, i - a, j - a),
        decreases j - i,
    {
        j = j - 1;
    }
    proof {
        lemma_skip_quotes_back_bound(s, i - a, j - a);
        assert(v@.subrange(i as int, j as int) =~= s.subrange(i - a, j - a));
    }
    (i, j)
}

proof fn lemma_skip_quotes_bound(s: Seq<char>, i: int)
    requires
        0 <= i <= s.len(),
    ensures
        i <= skip_quotes(s, i) <= s.len(),
    decreases s.len() - i,
{
    if i < s.len() && s[i] == '"' {
        lemma_skip_quotes_bound(s, i + 1);
    }
}

proof fn lemma_skip_quotes_back_bound(s: Seq<char>, lo: int, j: int)
    requires
        0 <= lo <= j <= s.len(),
    ensures
        lo <= skip_quotes_back(s, lo, j) <= j,
    decreases j - lo,
{
    if j > lo && s[j - 1] == '"' {
        lemma_skip_quotes_back_bound(s, lo, j - 1);
    }
}

fn range_starts_with(v: &Vec<char>, a: usize, b: usize, p: &[char]) -> (r: bool)
    requires
        a <= b <= v@.len(),
    ensures
        r == starts_with(v@.subrange(a as int, b as int), p@),
{
    if b - a < p.len() {
        return false;
    }
    let mut i: usize = 0;
    while i < p.len()
        invariant
            i <= p@.len(),
            a + p@.len() <= b <= v@.len(),
            forall|m: int| 0 <= m < i ==> v@[a + m] == p@[m],
        decreases p@.len() - i,
    {
        if v[a + i] != p[i] {
            assert(v@.subrange(a as int, b as int).subrange(0, p@.len() as int)[i as int] != p@[i as int]);
            return false;
        }
        i = i + 1;
    }
    assert(v@.subrange(a as int, b as int).subrange(0, p@.len() as int) =~= p@);
    true
}

fn lower_char(c: char) -> (r: char)
    ensures
        r == ascii_lower(c),
{
    if 'A' <= c && c <= 'Z' {
        (((c as u32) + 32) as u8) as char
    } else {
        c
    }
}

fn range_starts_with_ignore_case(v: &Vec<char>, a: usize, b: usize, p: &[char]) -> (r: bool)
    requires
        a <= b <= v@.len(),
    ensures
        r == starts_with_ignore_case(v@.subrange(a as int, b as int), p@),
{
    let ghost s = v@.subrange(a as int, b as int);
    if b - a < p.len() {
        return false;
    }
    let mut i: usize = 0;
    while i < p.len()
        invariant
            i <= p@.len(),
            a + p@.len() <= b <= v@.len(),
            s == v@.subrange(a as int, b as int),
            forall|m: int| 0 <= m < i ==> ascii_lower(#[trigger] s[m]) == ascii_lower(p@[m]),
        decreases p@.len() - i,
    {
        assert(s[i as int] == v@[a + i]);
        if lower_char(v[a + i]) != lower_char(p[i]) {
            return false;
        }
        i = i + 1;
    }
    true
}

// ---------------------------------------------------------------------------
// The boundary and part headers
// ---------------------------------------------------------------------------

pub open spec fn boundary_key() -> Seq<char> {
    seq!['b', 'o', 'u', 'n', 'd', 'a', 'r', 'y', '=']
}

/// The `boundary=` value among the first `n` `;`-separated pieces: the
/// first piece that starts with it once trimmed, quotes trimmed off.
pub open spec fn boundary_in(ps: Seq<Seq<char>>, n: int) -> Option<Seq<char>>
    decreases n,
{
    if n <= 0 {
        None
    } else {
        match boundary_in(ps, n - 1) {
            Some(b) => Some(b),
            None => {
                let t = trim(ps[n - 1]);
                if starts_with(t, boundary_key()) {
                    Some(trim_quotes(t.subrange(9, t.len() as int)))
                } else {
                    None
                }
            },
        }
    }
}

pub open spec fn boundary_of(content_type: Seq<char>) -> Option<Seq<char>> {
    boundary_in(split(content_type, ';'), split(content_type, ';').len() as int)
}

/// The `boundary` parameter of a `multipart/form-data` content type.
pub fn multipart_boundary(content_type: &str) -> (r: Option<String>)
    ensures
        match boundary_of(content_type@) {
            Some(b) => r matches Some(s) && s@ == b,
            None => r is None,
        },
{
    let v = chars_of(content_type);
    let ranges = split_ranges(&v, 0, v.len(), ';');
    let ghost sp = split(v@, ';');
    assert(v@.subrange(0, v@.len() as int) =~= v@);
    let key: [char; 9] = ['b', 'o', 'u', 'n', 'd', 'a', 'r', 'y', '='];
    let mut k: usize = 0;
    while k < ranges.len()
        invariant
            k <= ranges@.len(),
            v@ == content_type@,
            sp == split(v@, ';'),
            key@ == boundary_key(),
            ranges@.len() == sp.len(),
            forall|j: int|
                0 <= j < ranges@.len() ==> 0 <= (#[trigger] ranges@[j]).0 <= ranges@[j].1 <= v@.len()
                    && v@.subrange(ranges@[j].0 as int, ranges@[j].1 as int) == sp[j],
            boundary_in(sp, k as int) is None,
        decreases ranges@.len() - k,
    {
        let (x, y) = ranges[k];
        assert(ranges@[k as int] == (x, y));
        let (p, q) = trim_bounds(&v, x, y);
        if range_starts_with(&v, p, q, key.as_slice()) {
            let (c, d) = trim_quote_bounds(&v, p + 9, q);
            proof {
                let t = trim(sp[k as int]);
                assert(v@.subrange(p + 9, q as int) =~= t.subrange(9, t.len() as int));
                lemma_boundary_found(sp, k as int + 1, sp.len() as int);
            }
            return Some(string_of_range(&v, c, d));
        }
        k = k + 1;
    }
    None
}

proof fn lemma_boundary_found(ps: Seq<Seq<char>>, i: int, n: int)
    requires
        1 <= i <= n,
        boundary_in(ps, i) is Some,
    ensures
        boundary_in(ps, n) == boundary_in(ps, i),
    decreases n - i,
{
    if i < n {
        lemma_boundary_found(ps, i, n - 1);
    }
}

pub open spec fn name_key() -> Seq<char> {
    seq!['n', 'a', 'm', 'e', '=']
}

pub open spec fn filename_key() -> Seq<char> {
    seq!['f', 'i', 'l', 'e', 'n', 'a', 'm', 'e', '=']
}

/// `(name, filename)` from the pieces `1..n` of a `Content-Disposition`
/// value: a trimmed piece starting `name=` or `filename=` sets that value
/// (quotes trimmed), later ones winning.
pub open spec fn disposition_upto(ps: Seq<Seq<char>>, n: int) -> (Option<Seq<char>>, Option<Seq<char>>)
    decreases n,
{
    if n <= 1 {
        (None, None)
    } else {
        let (name, filename) = disposition_upto(ps, n - 1);
        let t = trim(ps[n - 1]);
        if starts_with(t, name_key()) {
            (Some(trim_quotes(t.subrange(5, t.len() as int))), filename)
        } else if starts_with(t, filename_key()) {
            (name, Some(trim_quotes(t.subrange(9, t.len() as int))))
        } else {
            (name, filename)
        }
    }
}

pub open spec fn disposition_of(line: Seq<char>) -> (Option<Seq<char>>, Option<Seq<char>>) {
    disposition_upto(split(line, ';'), split(line, ';').len() as int)
}

pub open spec fn opt_string_model(o: Option<String>) -> Option<Seq<char>> {
    match o {
        Some(s) => Some(s@),
        None => None,
    }
}

fn disposition_range(v: &Vec<char>, a: usize, b: usize) -> (r: (Option<String>, Option<String>))
    requires
        a <= b <= v@.len(),
    ensures
        (opt_string_model(r.0), opt_string_model(r.1)) == disposition_of(v@.subrange(a as int, b as int)),
{
    let ghost line = v@.subrange(a as int, b as int);
    let ranges = split_ranges(v, a, b, ';');
    let ghost sp = split(line, ';');
    let nk: [char; 5] = ['n', 'a', 'm', 'e', '='];
    let fk: [char; 9] = ['f', 'i', 'l', 'e', 'n', 'a', 'm', 'e', '='];
    let mut name: Option<String> = None;
    let mut filename: Option<String> = None;
    proof {
        lemma_split_len(line, ';');
    }
    let mut k: usize = 1;
    while k < ranges.len()
        invariant
            1 <= k <= ranges@.len() || ranges@.len() == 0,
            ranges@.len() >= 1,
            a <= b <= v@.len(),
            line == v@.subrange(a as int, b as int),
            sp == split(line, ';'),
            nk@ == name_key(),
            fk@ == filename_key(),
            ranges@.len() == sp.len(),
            forall|j: int|
                0 <= j < ranges@.len() ==> a <= (#[trigger] ranges@[j]).0 <= ranges@[j].1 <= b
                    && v@.subrange(ranges@[j].0 as int, ranges@[j].1 as int) == sp[j],
            (opt_string_model(name), opt_string_model(filename)) == disposition_upto(sp, k as int),
        decreases ranges@.len() - k,
    {
        let (x, y) = ranges[k];
        assert(ranges@[k as int] == (x, y));
        let (p, q) = trim_bounds(v, x, y);
        let ghost t = trim(sp[k as int]);
        if range_starts_with(v, p, q, nk.as_slice()) {
            let (c, d) = trim_quote_bounds(v, p + 5, q);
            assert(v@.subrange(p + 5, q as int) =~= t.subrange(5, t.len() as int));
            name = Some(string_of_range(v, c, d));
        } else if range_starts_with(v, p, q, fk.as_slice()) {
            let (c, d) = trim_quote_bounds(v, p + 9, q);
            assert(v@.subrange(p + 9, q as int) =~= t.subrange(9, t.len() as int));
            filename = Some(string_of_range(v, c, d));
        }
        k = k + 1;
    }
    (name, filename)
}

/// `(name, filename)` of a `Content-Disposition: form-data; name="..."`
/// value.
pub fn parse_content_disposition(line: &str) -> (r: (Option<String>, Option<String>))
    ensures
        (opt_string_model(r.0), opt_string_model(r.1)) == disposition_of(line@),
{
    let v = chars_of(line);
    assert(v@.subrange(0, v@.len() as int) =~= v@);
    disposition_range(&v, 0, v.len())
}

// ---------------------------------------------------------------------------
// Byte search
// ---------------------------------------------------------------------------

/// `needle` occurs in `h` at `p`.
pub open spec fn occurs_at(h: Seq<u8>, needle: Seq<u8>, p: int) -> bool {
    0 <= p && p + needle.len() <= h.len() && h.subrange(p, p + needle.len()) == needle
}

/// The first occurrence of `needle` in `h` at or after `from`; `None` for
/// an empty needle or a start past the end.
pub open spec fn find_bytes(h: Seq<u8>, needle: Seq<u8>, from: int) -> Option<int>
    decreases h.len() - from,
{
    if needle.len() == 0 || from < 0 || from + needle.len() > h.len() {
        None
    } else if occurs_at(h, needle, from) {
        Some(from)
    } else {
        find_bytes(h, needle, from + 1)
    }
}

fn occurs_here(h: &[u8], needle: &[u8], p: usize) -> (r: bool)
    requires
        p + needle@.len() <= h@.len(),
    ensures
        r == occurs_at(h@, needle@, p as int),
{
    let mut i: usize = 0;
    let hl = h.len();
    while i < needle.len()
        invariant
            i <= needle@.len(),
            hl == h@.len(),
            p + needle@.len() <= h@.len(),
            forall|m: int| 0 <= m < i ==> h@[p + m] == needle@[m],
        decreases needle@.len() - i,
    {
        if h[p + i] != needle[i] {
            assert(h@.subrange(p as int, p + needle@.len())[i as int] != needle@[i as int]);
            return false;
        }
        i = i + 1;
    }
    assert(h@.subrange(p as int, p + needle@.len()) =~= needle@);
    true
}

/// Finds `needle` in `haystack` from `from` on (see [`find_bytes`]).
pub fn find_subslice(haystack: &[u8], needle: &[u8], from: usize) -> (r: Option<usize>)
    ensures
        match find_bytes(haystack@, needle@, from as int) {
            Some(p) => r matches Some(x) && x == p,
            None => r is None,
        },
{
    if needle.len() == 0 || from > haystack.len() {
        return None;
    }
    let hl = haystack.len();
    let mut p = from;
    while p <= hl && hl - p >= needle.len()
        invariant
            from <= p <= hl,
            hl == haystack@.len(),
            needle@.len() > 0,
            find_bytes(haystack@, needle@, from as int) == find_bytes(haystack@, needle@, p as int),
        decreases hl - p,
    {
        if occurs_here(haystack, needle, p) {
            return Some(p);
        }
        p = p + 1;
    }
    None
}

} // verus!

verus! {

// ---------------------------------------------------------------------------
// Header lines
// ---------------------------------------------------------------------------

/// The lines of `s` between `\r\n` separators (as `str::split("\r\n")`).
pub open spec fn split_crlf(s: Seq<char>) -> Seq<Seq<char>>
    decreases s.len(),
{
    if s.len() == 0 {
        seq![Seq::empty()]
    } else if s.len() >= 2 && s[s.len() - 2] == '\r' && s[s.len() - 1] == '\n' {
        split_crlf(s.subrange(0, s.len() - 2)).push(Seq::empty())
    } else {
        let r = split_crlf(s.drop_last());
        r.update(r.len() - 1, r.last().push(s.last()))
    }
}

proof fn lemma_split_crlf_len(s: Seq<char>)
    ensures
        split_crlf(s).len() >= 1,
    decreases s.len(),
{
    if s.len() >= 2 && s[s.len() - 2] == '\r' && s[s.len() - 1] == '\n' {
        lemma_split_crlf_len(s.subrange(0, s.len() - 2));
    } else if s.len() > 0 {
        lemma_split_crlf_len(s.drop_last());
    }
}

/// The ranges of the lines of `v[a..b]`, as index pairs into `v`.
fn line_ranges(v: &Vec<char>, a: usize, b: usize) -> (r: Vec<(usize, usize)>)
    requires
        a <= b <= v@.len(),
    ensures
        r@.len() == split_crlf(v@.subrange(a as int, b as int)).len(),
        forall|k: int|
            0 <= k < r@.len() ==> a <= (#[trigger] r@[k]).0 <= r@[k].1 <= b && v@.subrange(
                r@[k].0 as int,
                r@[k].1 as int,
            ) == split_crlf(v@.subrange(a as int, b as int))[k],
{
    let mut r: Vec<(usize, usize)> = Vec::new();
    let mut start = a;
    let mut i = a;
    assert(v@.subrange(a as int, a as int) =~= Seq::<char>::empty());
    while i < b
        invariant
            a <= start <= i <= b <= v@.len(),
            start == a || v@[start - 1] == '\n',
            r@.len() + 1 == split_crlf(v@.subrange(a as int, i as int)).len(),
            forall|k: int|
                0 <= k < r@.len() ==> a <= (#[trigger] r@[k]).0 <= r@[k].1 <= i && v@.subrange(
                    r@[k].0 as int,
                    r@[k].1 as int,
                ) == split_crlf(v@.subrange(a as int, i as int))[k],
            v@.subrange(start as int, i as int) == split_crlf(v@.subrange(a as int, i as int)).last(),
        decreases b - i,
    {
        let ghost s = v@.subrange(a as int, i + 1);
        proof {
            lemma_split_crlf_len(v@.subrange(a as int, i as int));
            assert(s.drop_last() =~= v@.subrange(a as int, i as int));
        }
        if v[i] == '\n' && i > start && v[i - 1] == '\r' {
            proof {
                let t = v@.subrange(a as int, i - 1);
                assert(s.subrange(0, s.len() - 2) =~= t);
                lemma_split_crlf_len(t);
                let prev = split_crlf(v@.subrange(a as int, i as int));
                // the line so far ends with the '\r', which was appended to it
                assert(v@.subrange(a as int, i as int).drop_last() =~= t);
                assert(!(v@.subrange(a as int, i as int).len() >= 2 && v@.subrange(a as int, i as int)[i - a
                    - 2] == '\r' && v@.subrange(a as int, i as int)[i - a - 1] == '\n'));
                assert(prev == split_crlf(t).update(
                    split_crlf(t).len() - 1,
                    split_crlf(t).last().push('\r'),
                ));
                assert(v@.subrange(start as int, i - 1) =~= v@.subrange(start as int, i as int).drop_last());
            }
            r.push((start, i - 1));
            start = i + 1;
            assert(v@.subrange(start as int, i + 1) =~= Seq::<char>::empty());
        } else {
            proof {
                if s.len() >= 2 && s[s.len() - 2] == '\r' && s[s.len() - 1] == '\n' {
                    assert(i > a);
                    assert(v@[i - 1] == '\r');
                    assert(start != i) by {
                        if start == i {
                            assert(start == a || v@[start - 1] == '\n');
                        }
                    }
                }
            }
            assert(v@.subrange(start as int, i + 1) =~= v@.subrange(start as int, i as int).push(v@[i as int]));
        }
        i = i + 1;
    }
    r.push((start, b));
    r
}

/// Name, filename and content type from the first `n` header lines of a
/// part: a `Content-Disposition:` line (case ignored) sets name and
/// filename from what follows its first colon; a `Content-Type:` line sets
/// the type to what follows the colon, trimmed.
pub open spec fn part_headers(lines: Seq<Seq<char>>, n: int) -> (
    Option<Seq<char>>,
    Option<Seq<char>>,
    Option<Seq<char>>,
)
    decreases n,
{
    if n <= 0 {
        (None, None, None)
    } else {
        let (nm, fl, ct) = part_headers(lines, n - 1);
        let line = lines[n - 1];
        if starts_with_ignore_case(line, "content-disposition:"@) {
            let rest = match find_char(line, ':', 0) {
                Some(i) => line.subrange(i + 1, line.len() as int),
                None => line,
            };
            let (n2, f2) = disposition_of(rest);
            (n2, f2, ct)
        } else if starts_with_ignore_case(line, "content-type:"@) {
            (
                nm,
                fl,
                match find_char(line, ':', 0) {
                    Some(i) => Some(trim(line.subrange(i + 1, line.len() as int))),
                    None => None,
                },
            )
        } else {
            (nm, fl, ct)
        }
    }
}

pub open spec fn headers_of(text: Seq<char>) -> (Option<Seq<char>>, Option<Seq<char>>, Option<Seq<char>>) {
    part_headers(split_crlf(text), split_crlf(text).len() as int)
}

fn first_colon(v: &Vec<char>, a: usize, b: usize) -> (r: Option<usize>)
    requires
        a <= b <= v@.len(),
    ensures
        match find_char(v@.subrange(a as int, b as int), ':', 0) {
            Some(i) => r matches Some(c) && c == a + i,
            None => r is None,
        },
        r matches Some(c) ==> a <= c < b,
{
    let ghost s = v@.subrange(a as int, b as int);
    let mut i = a;
    while i < b
        invariant
            a <= i <= b <= v@.len(),
            s == v@.subrange(a as int, b as int),
            find_char(s, ':', 0) == find_char(s, ':', i - a),
        decreases b - i,
    {
        if v[i] == ':' {
            return Some(i);
        }
        proof {
            crate::multipart::lemma_find_char_step(s, ':', i - a);
        }
        i = i + 1;
    }
    None
}

proof fn lemma_find_char_step(s: Seq<char>, c: char, i: int)
    requires
        0 <= i < s.len(),
        s[i] != c,
    ensures
        find_char(s, c, i) == find_char(s, c, i + 1),
{
}

fn headers_range(v: &Vec<char>, a: usize, b: usize) -> (r: (Option<String>, Option<String>, Option<String>))
    requires
        a <= b <= v@.len(),
    ensures
        (opt_string_model(r.0), opt_string_model(r.1), opt_string_model(r.2)) == headers_of(
            v@.subrange(a as int, b as int),
        ),
{
    let ghost text = v@.subrange(a as int, b as int);
    let lines = line_ranges(v, a, b);
    let ghost ls = split_crlf(text);
    let cd = chars_of("content-disposition:");
    let ctk = chars_of("content-type:");
    let mut name: Option<String> = None;
    let mut filename: Option<String> = None;
    let mut ct: Option<String> = None;
    let mut k: usize = 0;
    while k < lines.len()
        invariant
            k <= lines@.len(),
            a <= b <= v@.len(),
            text == v@.subrange(a as int, b as int),
            ls == split_crlf(text),
            cd@ == "content-disposition:"@,
            ctk@ == "content-type:"@,
            lines@.len() == ls.len(),
            forall|j: int|
                0 <= j < lines@.len() ==> a <= (#[trigger] lines@[j]).0 <= lines@[j].1 <= b
                    && v@.subrange(lines@[j].0 as int, lines@[j].1 as int) == ls[j],
            (opt_string_model(name), opt_string_model(filename), opt_string_model(ct)) == part_headers(
                ls,
                k as int,
            ),
        decreases lines@.len() - k,
    {
        let (x, y) = lines[k];
        assert(lines@[k as int] == (x, y));
        let ghost line = ls[k as int];
        assert(v@.subrange(x as int, y as int) == line);
        let ghost prev = part_headers(ls, k as int);
        assert(part_headers(ls, k + 1) == {
            let (nm, fl, ct0) = prev;
            if starts_with_ignore_case(line, "content-disposition:"@) {
                let rest = match find_char(line, ':', 0) {
                    Some(i) => line.subrange(i + 1, line.len() as int),
                    None => line,
                };
                let (n2, f2) = disposition_of(rest);
                (n2, f2, ct0)
            } else if starts_with_ignore_case(line, "content-type:"@) {
                (
                    nm,
                    fl,
                    match find_char(line, ':', 0) {
                        Some(i) => Some(trim(line.subrange(i + 1, line.len() as int))),
                        None => None,
                    },
                )
            } else {
                (nm, fl, ct0)
            }
        });
        if range_starts_with_ignore_case(v, x, y, cd.as_slice()) {
            let colon = first_colon(v, x, y);
            let r2 = match colon {
                Some(c) => {
                    assert(find_char(line, ':', 0) == Some(c - x));
                    assert(v@.subrange(c + 1, y as int) =~= line.subrange(c - x + 1, line.len() as int));
                    disposition_range(v, c + 1, y)
                },
                None => {
                    assert(find_char(line, ':', 0) is None);
                    disposition_range(v, x, y)
                },
            };
            let (n2, f2) = r2;
            name = n2;
            filename = f2;
        } else if range_starts_with_ignore_case(v, x, y, ctk.as_slice()) {
            ct = match first_colon(v, x, y) {
                Some(c) => {
                    assert(v@.subrange(c + 1, y as int) =~= line.subrange(c - x + 1, line.len() as int));
                    let (p, q) = trim_bounds(v, c + 1, y);
                    Some(string_of_range(v, p, q))
                },
                None => None,
            };
        }
        k = k + 1;
    }
    (name, filename, ct)
}

} // verus!

verus! {

// ---------------------------------------------------------------------------
// The body
// ---------------------------------------------------------------------------

/// One part of a form: its field name, optional file name and content
/// type, and its bytes.
#[derive(Debug, Clone)]
pub struct MultipartField {
    pub name: String,
    pub filename: Option<String>,
    pub content_type: Option<String>,
    pub data: Vec<u8>,
}

pub struct FieldM {
    pub name: Seq<char>,
    pub filename: Option<Seq<char>>,
    pub content_type: Option<Seq<char>>,
    pub data: Seq<u8>,
}

impl MultipartField {
    pub open spec fn model(self) -> FieldM {
        FieldM {
            name: self.name@,
            filename: opt_string_model(self.filename),
            content_type: opt_string_model(self.content_type),
            data: self.data@,
        }
    }
}

pub open spec fn field_models(s: Seq<MultipartField>) -> Seq<FieldM> {
    s.map_values(|f: MultipartField| f.model())
}

/// Why a body is not a form.
#[derive(Debug, Clone, Copy, PartialEq, Eq, Structural)]
pub enum MultipartError {
    /// The content type is not `multipart/form-data`.
    NotMultipart,
    /// The content type has no `boundary` parameter.
    MissingBoundary,
    /// The body does not contain the boundary.
    BoundaryNotFound,
    /// A part's headers are not ended by a blank line, or a part is not
    /// closed by a boundary.
    Malformed,
}

pub open spec fn starts_at(b: Seq<u8>, pos: int, x: u8, y: u8) -> bool {
    0 <= pos && pos + 2 <= b.len() && b[pos] == x && b[pos + 1] == y
}

pub open spec fn blank_line() -> Seq<u8> {
    seq![13u8, 10u8, 13u8, 10u8]
}

pub proof fn lemma_find_bytes(h: Seq<u8>, n: Seq<u8>, from: int)
    ensures
        find_bytes(h, n, from) matches Some(p) ==> from <= p && p + n.len() <= h.len() && occurs_at(h, n, p),
    decreases h.len() - from,
{
    if n.len() > 0 && 0 <= from && from + n.len() <= h.len() && !occurs_at(h, n, from) {
        lemma_find_bytes(h, n, from + 1);
    }
}

/// The fields of a body from `pos` (just after a boundary) on: a boundary
/// followed by `--` ends the body; each part is its headers up to a blank
/// line, then its bytes up to the next boundary (less the line break
/// before it). Parts without a name are left out; a part with no blank
/// line after its headers, or no boundary after its bytes, makes the body
/// malformed.
pub open spec fn parse_parts(b: Seq<u8>, d: Seq<u8>, pos: int) -> Result<Seq<FieldM>, MultipartError>
    decreases b.len() - pos,
{
    if pos < 0 || pos > b.len() || d.len() == 0 || starts_at(b, pos, 0x2d, 0x2d) {
        Ok(Seq::empty())
    } else {
        let p2 = if starts_at(b, pos, 13, 10) {
            pos + 2
        } else {
            pos
        };
        proof {
            lemma_find_bytes(b, blank_line(), p2);
        }
        match find_bytes(b, blank_line(), p2) {
            None => Err(MultipartError::Malformed),
            Some(he) => {
                let bs = he + 4;
                proof {
                    lemma_find_bytes(b, d, bs);
                }
                match find_bytes(b, d, bs) {
                    None => Err(MultipartError::Malformed),
                    Some(nb) => {
                        let (nm, fl, ct) = headers_of(utf8_lossy(b.subrange(p2, he)));
                        let be = if nb >= bs + 2 && b[nb - 2] == 13 && b[nb - 1] == 10 {
                            nb - 2
                        } else {
                            nb
                        };
                        let here: Seq<FieldM> = match nm {
                            Some(n) => seq![
                                FieldM { name: n, filename: fl, content_type: ct, data: b.subrange(bs, be) },
                            ],
                            None => Seq::empty(),
                        };
                        prepend(here, parse_parts(b, d, nb + d.len()))
                    },
                }
            },
        }
    }
}

/// The fields `f` read first, before what `r` reads (or its error).
pub open spec fn prepend(f: Seq<FieldM>, r: Result<Seq<FieldM>, MultipartError>) -> Result<Seq<FieldM>, MultipartError> {
    match r {
        Ok(x) => Ok(f + x),
        Err(e) => Err(e),
    }
}

proof fn lemma_prepend_assoc(f: Seq<FieldM>, g: Seq<FieldM>, r: Result<Seq<FieldM>, MultipartError>)
    ensures
        prepend(f, prepend(g, r)) == prepend(f + g, r),
{
    match r {
        Ok(x) => {
            assert(f + (g + x) =~= (f + g) + x);
        },
        Err(_) => {},
    }
}

/// The fields of a `multipart/form-data` body.
pub open spec fn multipart_fields(content_type: Seq<char>, body: Seq<u8>) -> Result<Seq<FieldM>, MultipartError> {
    if !starts_with(content_type, "multipart/form-data"@) {
        Err(MultipartError::NotMultipart)
    } else {
        match boundary_of(content_type) {
            None => Err(MultipartError::MissingBoundary),
            Some(bd) => {
                let d = encode_utf8("--"@ + bd);
                match find_bytes(body, d, 0) {
                    None => Err(MultipartError::BoundaryNotFound),
                    Some(fb) => parse_parts(body, d, fb + d.len()),
                }
            },
        }
    }
}

fn copy_range(b: &[u8], s: usize, e: usize) -> (r: Vec<u8>)
    requires
        s <= e <= b@.len(),
    ensures
        r@ == b@.subrange(s as int, e as int),
{
    let mut r: Vec<u8> = Vec::new();
    let mut i = s;
    while i < e
        invariant
            s <= i <= e <= b@.len(),
            r@ == b@.subrange(s as int, i as int),
        decreases e - i,
    {
        r.push(b[i]);
        i = i + 1;
        assert(r@ =~= b@.subrange(s as int, i as int));
    }
    r
}

/// Splits a form body into its fields (see [`multipart_fields`]).
pub fn parse_multipart(content_type: &str, body: &[u8]) -> (r: Result<Vec<MultipartField>, MultipartError>)
    ensures
        match multipart_fields(content_type@, body@) {
            Ok(fs) => r matches Ok(v) && field_models(v@) == fs,
            Err(e) => r == Err::<Vec<MultipartField>, MultipartError>(e),
        },
{
    let ctv = chars_of(content_type);
    let mf = chars_of("multipart/form-data");
    assert(ctv@.subrange(0, ctv@.len() as int) =~= ctv@);
    if !range_starts_with(&ctv, 0, ctv.len(), mf.as_slice()) {
        return Err(MultipartError::NotMultipart);
    }
    let boundary = match multipart_boundary(content_type) {
        Some(b) => b,
        None => return Err(MultipartError::MissingBoundary),
    };
    let mut delim_text = "--".to_owned();
    delim_text.append(boundary.as_str());
    let delimiter = delim_text.as_str().as_bytes();
    let ghost d = delimiter@;
    assert(d.len() > 0) by {
        reveal_strlit("--");
        assert(delim_text@.len() >= 2);
        let cs = delim_text@;
        assert(encode_utf8(cs) == vstd::utf8::encode_scalar(cs[0] as u32) + encode_utf8(cs.drop_first()));
        assert(vstd::utf8::encode_scalar(cs[0] as u32).len() >= 1);
    }
    let first = match find_subslice(body, delimiter, 0) {
        Some(p) => p,
        None => return Err(MultipartError::BoundaryNotFound),
    };
    proof {
        lemma_find_bytes(body@, d, 0);
    }
    let ghost start = first + d.len();
    assert(body@.len() == body.len());
    let mut pos = first + delimiter.len();
    let mut fields: Vec<MultipartField> = Vec::new();
    let ghost whole = multipart_fields(content_type@, body@);
    assert(whole == parse_parts(body@, d, start));
    assert(prepend(field_models(fields@), parse_parts(body@, d, pos as int)) == whole) by {
        match parse_parts(body@, d, pos as int) {
            Ok(x) => {
                assert(field_models(fields@) + x =~= x);
            },
            Err(_) => {},
        }
    }
    loop
        invariant
            d == delimiter@,
            d.len() > 0,
            pos <= body@.len(),
            whole == multipart_fields(content_type@, body@),
            prepend(field_models(fields@), parse_parts(body@, d, pos as int)) == whole,
        ensures
            whole == Ok::<Seq<FieldM>, MultipartError>(field_models(fields@)),
        decreases body@.len() - pos,
    {
        let ghost fm = field_models(fields@);
        if body.len() - pos >= 2 && body[pos] == 0x2d && body[pos + 1] == 0x2d {
            assert(fm + Seq::<FieldM>::empty() =~= fm);
            break;
        }
        let p2 = if body.len() - pos >= 2 && body[pos] == 13 && body[pos + 1] == 10 {
            pos + 2
        } else {
            pos
        };
        let blank: [u8; 4] = [13, 10, 13, 10];
        assert(blank@ =~= blank_line());
        proof {
            lemma_find_bytes(body@, blank_line(), p2 as int);
        }
        let header_end = match find_subslice(body, blank.as_slice(), p2) {
            Some(h) => h,
            None => {
                return Err(MultipartError::Malformed);
            },
        };
        let body_start = header_end + 4;
        proof {
            lemma_find_bytes(body@, d, body_start as int);
        }
        let next = match find_subslice(body, delimiter, body_start) {
            Some(n) => n,
            None => {
                return Err(MultipartError::Malformed);
            },
        };
        let text = string_from_utf8_lossy(vstd::slice::slice_subrange(body, p2, header_end));
        let hv = chars_of(text.as_str());
        assert(hv@.subrange(0, hv@.len() as int) =~= hv@);
        let (name, filename, part_type) = headers_range(&hv, 0, hv.len());
        let mut body_end = next;
        if next - body_start >= 2 && body[next - 2] == 13 && body[next - 1] == 10 {
            body_end = next - 2;
        }
        let data = copy_range(body, body_start, body_end);
        let ghost rest = parse_parts(body@, d, next + d.len());
        match name {
            Some(n) => {
                let f = MultipartField { name: n, filename, content_type: part_type, data };
                let ghost before = fields@;
                fields.push(f);
                assert(field_models(fields@) =~= field_models(before).push(f.model()));
                assert(field_models(fields@) =~= fm + seq![f.model()]);
                proof {
                    lemma_prepend_assoc(fm, seq![f.model()], rest);
                }
            },
            None => {
                proof {
                    lemma_prepend_assoc(fm, Seq::empty(), rest);
                    assert(fm + Seq::<FieldM>::empty() =~= fm);
                }
            },
        }
        pos = next + delimiter.len();
    }
    Ok(fields)
}

} // verus!
