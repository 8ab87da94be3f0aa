//! The decisions of the HTTP middleware: gzip negotiation and compression,
//! CORS origins, request ids, and rate-limit keys.
use vstd::prelude::*;
use crate::text::{chars_of, trim_bounds, trim, string_of_range};
use crate::route::{split, split_ranges};
use crate::multipart::starts_with;
use crate::security::{RateLimiter, current_window, reset_secs};

verus! {

/// Smallest body worth compressing, in bytes.
pub const COMPRESSION_MIN_SIZE: usize = 512;

/// Whether an `Accept-Encoding` value offers gzip: some comma-separated
/// entry, trimmed, starts with `gzip`.
pub open spec fn offers_gzip(value: Seq<char>) -> bool {
    exists|k: int|
        0 <= k < split(value, ',').len() && starts_with(trim(#[trigger] split(value, ',')[k]), "gzip"@)
}

pub fn accepts_gzip(accept_encoding: Option<&str>) -> (r: bool)
    ensures
        r == match accept_encoding {
            Some(v) => offers_gzip(v@),
            None => false,
        },
{
    let text = match accept_encoding {
        Some(v) => v,
        None => return false,
    };
    let v = chars_of(text);
    let gz = chars_of("gzip");
    let ranges = split_ranges(&v, 0, v.len(), ',');
    let ghost sp = split(v@, ',');
    assert(v@.subrange(0, v@.len() as int) =~= v@);
    let mut k: usize = 0;
    while k < ranges.len()
        invariant
            k <= ranges@.len(),
            v@ == text@,
            accept_encoding == Some(text),
            gz@ == "gzip"@,
            sp == split(v@, ','),
            ranges@.len() == sp.len(),
            forall|j: int|
                0 <= j < ranges@.len() ==> 0 <= (#[trigger] ranges@[j]).0 <= ranges@[j].1 <= v@.len()
                    && v@.subrange(ranges@[j].0 as int, ranges@[j].1 as int) == sp[j],
            forall|j: int| 0 <= j < k ==> !starts_with(trim(#[trigger] sp[j]), "gzip"@),
        decreases ranges@.len() - k,
    {
        let (x, y) = ranges[k];
        assert(ranges@[k as int] == (x, y));
        let (p, q) = trim_bounds(&v, x, y);
        if q - p >= 4 && v[p] == 'g' && v[p + 1] == 'z' && v[p + 2] == 'i' && v[p + 3] == 'p' {
            proof {
                reveal_strlit("gzip");
                assert(v@.subrange(p as int, q as int).subrange(0, 4) =~= "gzip"@);
                assert(split(text@, ',')[k as int] == sp[k as int]);
            }
            return true;
        }
        proof {
            reveal_strlit("gzip");
            if starts_with(trim(sp[k as int]), "gzip"@) {
                let t = v@.subrange(p as int, q as int);
                assert(t.subrange(0, 4)[0] == t[0]);
                assert(t.subrange(0, 4)[1] == t[1]);
                assert(t.subrange(0, 4)[2] == t[2]);
                assert(t.subrange(0, 4)[3] == t[3]);
            }
        }
        k = k + 1;
    }
    false
}

/// A name for what flate2's `GzEncoder` (default level, over an in-memory
/// buffer) gives for `data`: the gzip stream, or `None` if it reports an
/// error. It depends on `data` alone (the header carries no time).
pub uninterp spec fn gzip_output(data: Seq<u8>) -> Option<Seq<u8>>;

/// flate2's `GzEncoder` (default level) over an in-memory buffer: the
/// compressed stream, or `None` if writing or finishing reports an error.
/// A stream starts with the gzip magic bytes.
#[verifier::external_body]
fn gzip(data: &[u8]) -> (r: Option<Vec<u8>>)
    ensures
        match gzip_output(data@) {
            Some(v) => r matches Some(x) && x@ == v,
            None => r is None,
        },
        r matches Some(v) ==> v@.len() >= 10 && v@[0] == 0x1f && v@[1] == 0x8b,
{
    let mut encoder = flate2::write::GzEncoder::new(Vec::new(), flate2::Compression::default());
    match std::io::Write::write_all(&mut encoder, data).and_then(|_| encoder.finish()) {
        Ok(v) => Some(v),
        Err(_) => None,
    }
}

/// What to send as a response body.
pub enum BodyPlan {
    /// The body as it is.
    Unchanged,
    /// This gzip stream, with `Content-Encoding: gzip`.
    Gzipped(Vec<u8>),
}

/// Compresses a response body when the client accepts gzip, the response
/// is not already encoded, and the body has at least
/// `COMPRESSION_MIN_SIZE` bytes; a failed compression sends the body
/// unchanged.
pub fn compression_plan(accepts: bool, already_encoded: bool, body: &[u8]) -> (r: BodyPlan)
    ensures
        !accepts || already_encoded || body@.len() < COMPRESSION_MIN_SIZE ==> r is Unchanged,
        accepts && !already_encoded && body@.len() >= COMPRESSION_MIN_SIZE ==> match gzip_output(body@) {
            Some(v) => r matches BodyPlan::Gzipped(w) && w@ == v,
            None => r is Unchanged,
        },
{
    if !accepts || already_encoded || body.len() < COMPRESSION_MIN_SIZE {
        return BodyPlan::Unchanged;
    }
    match gzip(body) {
        Some(v) => BodyPlan::Gzipped(v),
        None => BodyPlan::Unchanged,
    }
}

/// The non-empty trimmed entries of a comma-separated list, in order.
pub open spec fn list_entries(ps: Seq<Seq<char>>, n: int) -> Seq<Seq<char>>
    decreases n,
{
    if n <= 0 {
        Seq::empty()
    } else if trim(ps[n - 1]).len() == 0 {
        list_entries(ps, n - 1)
    } else {
        list_entries(ps, n - 1).push(trim(ps[n - 1]))
    }
}

pub open spec fn strs(s: Seq<String>) -> Seq<Seq<char>> {
    s.map_values(|x: String| x@)
}

/// The origins allowed by a comma-separated configuration value.
pub fn cors_allowed_origins(config: &str) -> (r: Vec<String>)
    ensures
        strs(r@) == list_entries(split(config@, ','), split(config@, ',').len() as int),
{
    let v = chars_of(config);
    let ranges = split_ranges(&v, 0, v.len(), ',');
    let ghost sp = split(v@, ',');
    assert(v@.subrange(0, v@.len() as int) =~= v@);
    let mut out: Vec<String> = Vec::new();
    let mut k: usize = 0;
    while k < ranges.len()
        invariant
            k <= ranges@.len(),
            v@ == config@,
            sp == split(v@, ','),
            ranges@.len() == sp.len(),
            forall|j: int|
                0 <= j < ranges@.len() ==> 0 <= (#[trigger] ranges@[j]).0 <= ranges@[j].1 <= v@.len()
                    && v@.subrange(ranges@[j].0 as int, ranges@[j].1 as int) == sp[j],
            strs(out@) == list_entries(sp, k as int),
        decreases ranges@.len() - k,
    {
        let (x, y) = ranges[k];
        assert(ranges@[k as int] == (x, y));
        let (p, q) = trim_bounds(&v, x, y);
        if p < q {
            let ghost before = out@;
            out.push(string_of_range(&v, p, q));
            assert(strs(out@) =~= strs(before).push(trim(sp[k as int])));
        }
        k = k + 1;
    }
    out
}

/// The `Access-Control-Allow-Origin` value: `*` without an `Origin`; the
/// origin itself when no list is configured or it is on the list; else
/// `null`.
pub open spec fn allow_origin_value(allowed: Seq<Seq<char>>, origin: Option<Seq<char>>) -> Seq<char> {
    match origin {
        None => "*"@,
        Some(o) => if allowed.len() == 0 || allowed.contains(o) {
            o
        } else {
            "null"@
        },
    }
}

pub fn allow_origin(allowed: &Vec<String>, origin: Option<&str>) -> (r: String)
    ensures
        r@ == allow_origin_value(
            strs(allowed@),
            match origin {
                Some(o) => Some(o@),
                None => None,
            },
        ),
{
    let o = match origin {
        Some(o) => o.to_owned(),
        None => return "*".to_owned(),
    };
    if allowed.len() == 0 {
        return o;
    }
    let mut i: usize = 0;
    while i < allowed.len()
        invariant
            i <= allowed@.len(),
            allowed@.len() > 0,
            origin matches Some(x) && x@ == o@,
            forall|j: int| 0 <= j < i ==> strs(allowed@)[j] != o@,
        decreases allowed@.len() - i,
    {
        if allowed[i] == o {
            assert(strs(allowed@)[i as int] == o@);
            return o;
        }
        i = i + 1;
    }
    "null".to_owned()
}

/// The request id: the caller's `X-Request-Id` when non-empty, else a new
/// random UUID.
pub fn request_id(header: Option<&str>) -> (r: String)
    ensures
        match header {
            Some(h) => if h@.len() > 0 {
                r@ == h@
            } else {
                crate::session::uuid_v4_text(r@)
            },
            None => crate::session::uuid_v4_text(r@),
        },
{
    match header {
        Some(h) => if !h.is_empty() {
            h.to_owned()
        } else {
            crate::session::new_uuid()
        },
        None => crate::session::new_uuid(),
    }
}

/// The rate-limit key: the client address header's text (`X-Forwarded-For`,
/// else `X-Real-IP`), or `anonymous`.
pub fn rate_limit_key(client: Option<&str>) -> (r: String)
    ensures
        r@ == match client {
            Some(c) => c@,
            None => "anonymous"@,
        },
{
    match client {
        Some(c) => c.to_owned(),
        None => "anonymous".to_owned(),
    }
}

/// Lets a request through the limiter (`None`), or refuses it with the
/// seconds until the key's window resets.
pub fn rate_limit_gate(limiter: &mut RateLimiter, key: &str, now: i64) -> (r: Option<i64>)
    ensures
        ({
            let (start, count) = current_window(old(limiter).window_of(key@), now, old(limiter).span());
            if count >= old(limiter).limit() {
                r == Some(reset_secs(start, now, old(limiter).span()) as i64)
            } else {
                r is None
            }
        }),
{
    match limiter.check(key, now) {
        Ok(()) => None,
        Err(_) => Some(limiter.seconds_until_reset(key, now)),
    }
}

} // verus!
