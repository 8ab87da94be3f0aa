//! Cookie sessions: the in-memory session table (lazy expiry), the session
//! cookie's header values, and finding the session id among a request's
//! cookies. Times are microseconds since the Unix epoch.
use vstd::prelude::*;
use crate::store::KeyedVec;
use crate::text::{chars_of, string_of_range, trim_bounds, trim, u64_chars, write_u64};
use crate::route::{split, split_ranges};
use crate::http::find_char;

verus! {

/// Name of the cookie holding the session id.
pub const SESSION_COOKIE_NAME: &'static str = "orn_session";

/// Header carrying the CSRF token on state-changing requests.
pub const CSRF_HEADER_NAME: &'static str = "x-csrf-token";

/// Session lifetime, in hours.
pub const SESSION_TTL_HOURS: i64 = 12;

/// Session lifetime in microseconds.
pub open spec fn ttl_micros() -> int {
    SESSION_TTL_HOURS * 3600 * 1_000_000
}

/// A live session.
#[derive(Debug)]
pub struct SessionData {
    pub owner: String,
    pub roles: Vec<String>,
    pub csrf_token: String,
    /// When the session stops being valid.
    pub expires_at: i64,
}

pub struct SessionM {
    pub owner: Seq<char>,
    pub roles: Seq<Seq<char>>,
    pub csrf_token: Seq<char>,
    pub expires_at: i64,
}

pub open spec fn strings_model(s: Seq<String>) -> Seq<Seq<char>> {
    s.map_values(|x: String| x@)
}

impl SessionData {
    pub open spec fn model(self) -> SessionM {
        SessionM {
            owner: self.owner@,
            roles: strings_model(self.roles@),
            csrf_token: self.csrf_token@,
            expires_at: self.expires_at,
        }
    }
}

pub fn copy_strings(v: &Vec<String>) -> (r: Vec<String>)
    ensures
        strings_model(r@) == strings_model(v@),
{
    let mut r: Vec<String> = Vec::new();
    let mut i: usize = 0;
    while i < v.len()
        invariant
            i <= v@.len(),
            strings_model(r@) == strings_model(v@).subrange(0, i as int),
        decreases v@.len() - i,
    {
        let ghost before = r@;
        r.push(v[i].clone());
        assert(strings_model(r@) =~= strings_model(before).push(v@[i as int]@));
        i = i + 1;
        assert(strings_model(r@) =~= strings_model(v@).subrange(0, i as int));
    }
    assert(strings_model(v@).subrange(0, v@.len() as int) =~= strings_model(v@));
    r
}

fn copy_session(d: &SessionData) -> (r: SessionData)
    ensures
        r.model() == d.model(),
{
    SessionData {
        owner: d.owner.clone(),
        roles: copy_strings(&d.roles),
        csrf_token: d.csrf_token.clone(),
        expires_at: d.expires_at,
    }
}

/// `Utc::now()` in microseconds since the epoch.
#[verifier::external_body]
fn now_micros() -> i64 {
    chrono::Utc::now().timestamp_micros()
}

/// A lowercase hexadecimal digit.
pub open spec fn is_lower_hex(c: char) -> bool {
    ('0' <= c && c <= '9') || ('a' <= c && c <= 'f')
}

/// The text of a random UUID (version 4, RFC 4122 variant): lowercase hex
/// digits in groups of 8, 4, 4, 4 and 12 joined by hyphens, the third
/// group opening with `4` and the fourth with one of `8`, `9`, `a`, `b`.
pub open spec fn uuid_v4_text(s: Seq<char>) -> bool {
    &&& s.len() == 36
    &&& forall|i: int|
        #![trigger s[i]]
        0 <= i < 36 ==> if i == 8 || i == 13 || i == 18 || i == 23 {
            s[i] == '-'
        } else {
            is_lower_hex(s[i])
        }
    &&& s[14] == '4'
    &&& (s[19] == '8' || s[19] == '9' || s[19] == 'a' || s[19] == 'b')
}

/// `Uuid::new_v4().to_string()`: a random UUID, whose version and variant
/// bits `new_v4` sets, written hyphenated in lowercase by its `Display`.
/// Which random digits come out is not stated.
#[verifier::external_body]
pub(crate) fn new_uuid() -> (r: String)
    ensures
        uuid_v4_text(r@),
{
    uuid::Uuid::new_v4().to_string()
}

/// The session table.
pub struct SessionStore {
    sessions: KeyedVec<SessionData>,
}

/// What looking up `id` at time `now` finds in a table whose session
/// under `id` is `s`: the session while `now` is before its expiry.
pub open spec fn live(s: Option<SessionM>, now: i64) -> Option<SessionM> {
    match s {
        Some(d) => if d.expires_at > now {
            Some(d)
        } else {
            None
        },
        None => None,
    }
}

/// `now + ttl`, saturating at the largest time.
pub open spec fn expiry_after(now: i64) -> i64 {
    if now + ttl_micros() > i64::MAX {
        i64::MAX
    } else {
        (now + ttl_micros()) as i64
    }
}

impl SessionStore {
    /// The session stored under `id`.
    pub closed spec fn session(&self, id: Seq<char>) -> Option<SessionM> {
        match self.sessions.value(id) {
            Some(d) => Some(d.model()),
            None => None,
        }
    }

    pub fn new() -> (r: SessionStore)
        ensures
            forall|id: Seq<char>| #[trigger] r.session(id) is None,
    {
        SessionStore { sessions: KeyedVec::new() }
    }

    /// Stores a session for `owner`/`roles` under `session_id`, with
    /// `csrf_token`, expiring `SESSION_TTL_HOURS` after `now`. Returns the
    /// id and the token.
    pub fn create_with(
        &mut self,
        owner: String,
        roles: Vec<String>,
        session_id: String,
        csrf_token: String,
        now: i64,
    ) -> (r: (String, String))
        ensures
            r.0@ == session_id@,
            r.1@ == csrf_token@,
            forall|id: Seq<char>| #[trigger] final(self).session(id) == if id == session_id@ {
                Some(
                    SessionM {
                        owner: owner@,
                        roles: strings_model(roles@),
                        csrf_token: csrf_token@,
                        expires_at: expiry_after(now),
                    },
                )
            } else {
                old(self).session(id)
            },
    {
        let expires_at = if now > i64::MAX - 43_200_000_000 {
            i64::MAX
        } else {
            now + 43_200_000_000
        };
        let data = SessionData { owner, roles, csrf_token: csrf_token.clone(), expires_at };
        let id = session_id.clone();
        self.sessions.insert(session_id, data);
        (id, csrf_token)
    }

    /// Creates a session with a fresh random id (two UUIDs) and CSRF token
    /// (one UUID), expiring `SESSION_TTL_HOURS` from now. Returns the id
    /// and the token.
    pub fn create(&mut self, owner: String, roles: Vec<String>) -> (r: (String, String))
        ensures
            r.0@.len() == 72,
            exists|a: Seq<char>, b: Seq<char>|
                #![trigger uuid_v4_text(a), uuid_v4_text(b)]
                uuid_v4_text(a) && uuid_v4_text(b) && r.0@ == a + b,
            uuid_v4_text(r.1@),
            exists|now: i64|
                #![trigger expiry_after(now)]
                final(self).session(r.0@) == Some(
                    SessionM {
                        owner: owner@,
                        roles: strings_model(roles@),
                        csrf_token: r.1@,
                        expires_at: expiry_after(now),
                    },
                ),
            forall|id: Seq<char>| id != r.0@ ==> #[trigger] final(self).session(id) == old(self).session(id),
    {
        let mut session_id = new_uuid();
        let second = new_uuid();
        let ghost first_text = session_id@;
        session_id.append(second.as_str());
        assert(session_id@ == first_text + second@);
        let csrf_token = new_uuid();
        let now = now_micros();
        self.create_with(owner, roles, session_id, csrf_token, now)
    }

    /// Looks up a session at time `now`: a live session is returned; an
    /// expired one is removed and not returned.
    pub fn get_at(&mut self, session_id: &str, now: i64) -> (r: Option<SessionData>)
        ensures
            match live(old(self).session(session_id@), now) {
                Some(d) => r matches Some(x) && x.model() == d,
                None => r is None,
            },
            forall|id: Seq<char>|
                #[trigger] final(self).session(id) == if id == session_id@ && old(self).session(id) is Some
                    && live(old(self).session(id), now) is None {
                    None
                } else {
                    old(self).session(id)
                },
    {
        let found = match self.sessions.get(session_id) {
            Some(d) => if d.expires_at > now {
                Some(copy_session(d))
            } else {
                None
            },
            None => return None,
        };
        match found {
            Some(d) => Some(d),
            None => {
                self.sessions.remove(session_id);
                None
            },
        }
    }

    /// Looks up a session now (see [`Self::get_at`]).
    pub fn get(&mut self, session_id: &str) -> (r: Option<SessionData>)
        ensures
            exists|now: i64|
                #![trigger live(old(self).session(session_id@), now)]
                (match live(old(self).session(session_id@), now) {
                    Some(d) => r matches Some(x) && x.model() == d,
                    None => r is None,
                }) && forall|id: Seq<char>|
                    #[trigger] final(self).session(id) == if id == session_id@ && old(self).session(id) is Some
                        && live(old(self).session(id), now) is None {
                        None
                    } else {
                        old(self).session(id)
                    },
    {
        let now = now_micros();
        self.get_at(session_id, now)
    }

    /// Removes a session (logout).
    pub fn destroy(&mut self, session_id: &str)
        ensures
            forall|id: Seq<char>| #[trigger] final(self).session(id) == if id == session_id@ {
                None
            } else {
                old(self).session(id)
            },
    {
        self.sessions.remove(session_id);
    }

    /// The ids under which a session is stored.
    pub open spec fn ids(&self) -> Set<Seq<char>> {
        Set::new(|id: Seq<char>| self.session(id) is Some)
    }

    /// The number of stored sessions, expired ones not yet evicted
    /// included.
    pub fn len(&self) -> (r: usize)
        ensures
            self.ids().finite(),
            r == self.ids().len(),
    {
        let r = self.sessions.len();
        assert(self.ids() =~= self.sessions.keys());
        r
    }
}

/// A session created at `now` can be read back, with what it was created
/// with, until it expires.
pub proof fn created_session_is_readable(
    before: Option<SessionM>,
    owner: Seq<char>,
    roles: Seq<Seq<char>>,
    csrf_token: Seq<char>,
    created: i64,
    now: i64,
)
    requires
        created <= now < expiry_after(created),
    ensures
        live(
            Some(SessionM { owner, roles, csrf_token, expires_at: expiry_after(created) }),
            now,
        ) == Some(SessionM { owner, roles, csrf_token, expires_at: expiry_after(created) }),
{
}

// ---------------------------------------------------------------------------
// Cookies
// ---------------------------------------------------------------------------

/// The session id among the first `n` `;`-separated cookie pairs: the
/// value of the first trimmed pair whose name (before its first `=`) is
/// the session cookie's.
pub open spec fn session_cookie_in(ps: Seq<Seq<char>>, n: int) -> Option<Seq<char>>
    decreases n,
{
    if n <= 0 {
        None
    } else {
        match session_cookie_in(ps, n - 1) {
            Some(v) => Some(v),
            None => {
                let t = trim(ps[n - 1]);
                match find_char(t, '=', 0) {
                    Some(e) => if t.subrange(0, e) == "orn_session"@ {
                        Some(t.subrange(e + 1, t.len() as int))
                    } else {
                        None
                    },
                    None => None,
                }
            },
        }
    }
}

pub open spec fn session_cookie(raw: Seq<char>) -> Option<Seq<char>> {
    session_cookie_in(split(raw, ';'), split(raw, ';').len() as int)
}

proof fn lemma_cookie_found(ps: Seq<Seq<char>>, i: int, n: int)
    requires
        1 <= i <= n,
        session_cookie_in(ps, i) is Some,
    ensures
        session_cookie_in(ps, n) == session_cookie_in(ps, i),
    decreases n - i,
{
    if i < n {
        lemma_cookie_found(ps, i, n - 1);
    }
}

/// The session id from a `Cookie:` header's text, if it names one.
pub fn session_id_from_cookie_header(cookie: Option<&str>) -> (r: Option<String>)
    ensures
        match cookie {
            Some(raw) => match session_cookie(raw@) {
                Some(v) => r matches Some(s) && s@ == v,
                None => r is None,
            },
            None => r is None,
        },
{
    let raw = match cookie {
        Some(c) => c,
        None => return None,
    };
    let v = chars_of(raw);
    let ranges = split_ranges(&v, 0, v.len(), ';');
    let ghost sp = split(v@, ';');
    assert(v@.subrange(0, v@.len() as int) =~= v@);
    let name = "orn_session".to_owned();
    let mut k: usize = 0;
    while k < ranges.len()
        invariant
            k <= ranges@.len(),
            v@ == raw@,
            cookie == Some(raw),
            name@ == "orn_session"@,
            sp == split(v@, ';'),
            ranges@.len() == sp.len(),
            forall|j: int|
                0 <= j < ranges@.len() ==> 0 <= (#[trigger] ranges@[j]).0 <= ranges@[j].1 <= v@.len()
                    && v@.subrange(ranges@[j].0 as int, ranges@[j].1 as int) == sp[j],
            session_cookie_in(sp, k as int) is None,
        decreases ranges@.len() - k,
    {
        let (x, y) = ranges[k];
        assert(ranges@[k as int] == (x, y));
        let (p, q) = trim_bounds(&v, x, y);
        let ghost t = trim(sp[k as int]);
        let mut e = p;
        while e < q && v[e] != '='
            invariant
                p <= e <= q <= v@.len(),
                t == v@.subrange(p as int, q as int),
                find_char(t, '=', 0) == find_char(t, '=', e - p),
            decreases q - e,
        {
            e = e + 1;
        }
        if e < q {
            let n = string_of_range(&v, p, e);
            assert(n@ =~= t.subrange(0, e - p));
            if n == name {
                let value = string_of_range(&v, e + 1, q);
                assert(value@ =~= t.subrange(e - p + 1, t.len() as int));
                proof {
                    lemma_cookie_found(sp, k + 1, sp.len() as int);
                }
                return Some(value);
            }
        }
        k = k + 1;
    }
    None
}

/// The `Set-Cookie` value for a new session: `HttpOnly`, `SameSite=Strict`,
/// lasting `SESSION_TTL_HOURS`.
pub open spec fn set_cookie_text(session_id: Seq<char>) -> Seq<char> {
    "orn_session="@ + session_id + "; HttpOnly; SameSite=Strict; Path=/; Max-Age="@ + u64_chars(43200)
}

pub fn set_cookie_header(session_id: &str) -> (r: String)
    ensures
        r@ == set_cookie_text(session_id@),
{
    let mut s = "orn_session=".to_owned();
    s.append(session_id);
    s.append("; HttpOnly; SameSite=Strict; Path=/; Max-Age=");
    write_u64((SESSION_TTL_HOURS * 3600) as u64, &mut s);
    s
}

/// The `Set-Cookie` value that clears the session cookie at once.
pub fn clear_cookie_header() -> (r: String)
    ensures
        r@ == "orn_session=; HttpOnly; SameSite=Strict; Path=/; Max-Age=0"@,
{
    "orn_session=; HttpOnly; SameSite=Strict; Path=/; Max-Age=0".to_owned()
}

} // verus!
