//! API-key validation, a fixed-window rate limiter, and the JWT codec's
//! secret. Times are microseconds since the Unix epoch; durations are
//! microseconds.
use vstd::prelude::*;
use crate::store::KeyedVec;

verus! {

/// An issued API key.
#[derive(Debug, Clone)]
pub struct ApiKey {
    pub key: String,
    pub owner: String,
    pub expires_at: Option<i64>,
    pub revoked: bool,
}

/// Why a key is not accepted.
#[derive(Debug, Clone, PartialEq, Eq)]
pub enum ApiKeyError {
    /// The key was revoked.
    Revoked { owner: String },
    /// The key expired at this time.
    Expired { owner: String, expires_at: i64 },
}

impl ApiKey {
    /// Accepts a key that is not revoked and, if it expires, is used before
    /// its expiry; a revoked key is reported as such even when expired.
    pub fn validate(&self, now: i64) -> (r: Result<(), ApiKeyError>)
        ensures
            self.revoked ==> (r matches Err(ApiKeyError::Revoked { owner }) && owner@ == self.owner@),
            !self.revoked ==> match self.expires_at {
                Some(e) => if now >= e {
                    r matches Err(ApiKeyError::Expired { owner, expires_at }) && owner@ == self.owner@
                        && expires_at == e
                } else {
                    r is Ok
                },
                None => r is Ok,
            },
    {
        if self.revoked {
            return Err(ApiKeyError::Revoked { owner: self.owner.clone() });
        }
        match self.expires_at {
            Some(e) => {
                if now >= e {
                    return Err(ApiKeyError::Expired { owner: self.owner.clone(), expires_at: e });
                }
            },
            None => {},
        }
        Ok(())
    }
}

/// A request over budget: the key and the limiter's settings.
#[derive(Debug, Clone, PartialEq, Eq)]
pub struct RateLimitExceeded {
    pub key: String,
    pub max_requests: u32,
    pub window: i64,
}

/// A fixed-window rate limiter: `max_requests` per `window` per key.
pub struct RateLimiter {
    max_requests: u32,
    window: i64,
    windows: KeyedVec<(i64, u32)>,
}

/// A key's window after a request at `now`, before counting it: a key
/// not seen yet, or whose window is at least `window` old, starts a new
/// one at `now` with no requests.
pub open spec fn current_window(w: Option<(i64, u32)>, now: i64, window: i64) -> (i64, u32) {
    match w {
        None => (now, 0),
        Some((start, count)) => if now - start >= window {
            (now, 0)
        } else {
            (start, count)
        },
    }
}

/// Whole seconds until the window starting at `start` ends, at `now`
/// (rounded toward zero; never negative).
pub open spec fn reset_secs(start: i64, now: i64, window: i64) -> int {
    let left = window - (now - start);
    if left > 0 {
        left / 1_000_000
    } else {
        0
    }
}

/// One request for a key at `now` against its window `w`: whether it is
/// let through, and the key's window afterwards (a refused request still
/// records its window).
pub open spec fn check_step(w: Option<(i64, u32)>, now: i64, window: i64, max_requests: u32) -> (bool, (i64, u32)) {
    let (start, count) = current_window(w, now, window);
    if count >= max_requests {
        (false, (start, count))
    } else {
        (true, (start, (count + 1) as u32))
    }
}

/// Whether each of successive requests for one key, at `times`, is let
/// through, starting from the key's window `w`.
pub open spec fn outcomes(w: Option<(i64, u32)>, times: Seq<i64>, window: i64, max_requests: u32) -> Seq<bool>
    decreases times.len(),
{
    if times.len() == 0 {
        Seq::empty()
    } else {
        let (ok, w2) = check_step(w, times[0], window, max_requests);
        seq![ok] + outcomes(Some(w2), times.drop_first(), window, max_requests)
    }
}

impl RateLimiter {
    pub closed spec fn limit(&self) -> u32 {
        self.max_requests
    }

    pub closed spec fn span(&self) -> i64 {
        self.window
    }

    /// The window recorded for `key`: its start and how many requests it
    /// has counted.
    pub closed spec fn window_of(&self, key: Seq<char>) -> Option<(i64, u32)> {
        self.windows.value(key)
    }

    pub fn new(max_requests: u32, window: i64) -> (r: RateLimiter)
        ensures
            r.limit() == max_requests,
            r.span() == window,
            forall|k: Seq<char>| #[trigger] r.window_of(k) is None,
    {
        RateLimiter { max_requests, window, windows: KeyedVec::new() }
    }

    /// Records a request for `key` at `now`: allowed while the key's
    /// current window has counted fewer than `max_requests`, and then
    /// counted; refused otherwise (the window is still recorded).
    pub fn check(&mut self, key: &str, now: i64) -> (r: Result<(), RateLimitExceeded>)
        ensures
            final(self).limit() == old(self).limit(),
            final(self).span() == old(self).span(),
            (r is Ok) == check_step(old(self).window_of(key@), now, old(self).span(), old(self).limit()).0,
            final(self).window_of(key@) == Some(
                check_step(old(self).window_of(key@), now, old(self).span(), old(self).limit()).1,
            ),
            ({
                let (start, count) = current_window(old(self).window_of(key@), now, old(self).span());
                if count >= old(self).limit() {
                    &&& r matches Err(e) && e.key@ == key@ && e.max_requests == old(self).limit()
                        && e.window == old(self).span()
                    &&& final(self).window_of(key@) == Some((start, count))
                } else {
                    &&& r is Ok
                    &&& final(self).window_of(key@) == Some((start, (count + 1) as u32))
                }
            }),
            forall|k: Seq<char>| k != key@ ==> #[trigger] final(self).window_of(k) == old(self).window_of(k),
    {
        let (start, count) = match self.windows.get(key) {
            None => (now, 0u32),
            Some(w) => {
                let (s, c) = *w;
                if (now as i128) - (s as i128) >= self.window as i128 {
                    (now, 0u32)
                } else {
                    (s, c)
                }
            },
        };
        if count >= self.max_requests {
            self.windows.insert(key.to_owned(), (start, count));
            return Err(RateLimitExceeded { key: key.to_owned(), max_requests: self.max_requests, window: self.window });
        }
        self.windows.insert(key.to_owned(), (start, count + 1));
        Ok(())
    }

    /// Seconds until `key`'s current window resets (for `Retry-After`); 0
    /// for a key with no window.
    pub fn seconds_until_reset(&self, key: &str, now: i64) -> (r: i64)
        ensures
            r == match self.window_of(key@) {
                Some((start, _)) => reset_secs(start, now, self.span()),
                None => 0,
            },
    {
        match self.windows.get(key) {
            Some(w) => {
                let left: i128 = (self.window as i128) - ((now as i128) - (w.0 as i128));
                if left > 0 {
                    (left / 1_000_000) as i64
                } else {
                    0
                }
            },
            None => 0,
        }
    }
}

proof fn lemma_outcomes_in_window(start: i64, count: u32, ts: Seq<i64>, window: i64, max_requests: u32)
    requires
        count <= max_requests,
        forall|i: int| 0 <= i < ts.len() ==> #[trigger] ts[i] - start < window,
    ensures
        outcomes(Some((start, count)), ts, window, max_requests).len() == ts.len(),
        forall|i: int|
            0 <= i < ts.len() ==> #[trigger] outcomes(Some((start, count)), ts, window, max_requests)[i] == (count
                + i < max_requests),
    decreases ts.len(),
{
    if ts.len() > 0 {
        let c2: u32 = if count >= max_requests {
            count
        } else {
            (count + 1) as u32
        };
        let rest = ts.drop_first();
        assert forall|i: int| 0 <= i < rest.len() implies #[trigger] rest[i] - start < window by {
            assert(rest[i] == ts[i + 1]);
        }
        assert(ts[0] - start < window);
        lemma_outcomes_in_window(start, c2, rest, window, max_requests);
        let o = outcomes(Some((start, count)), ts, window, max_requests);
        let o2 = outcomes(Some((start, c2)), rest, window, max_requests);
        assert(o == seq![count < max_requests] + o2);
        assert forall|i: int| 0 <= i < ts.len() implies #[trigger] o[i] == (count + i < max_requests) by {
            if i > 0 {
                assert(o[i] == o2[i - 1]);
            }
        }
    }
}

/// Within the window a key's first request opens, the key's first
/// `max_requests` requests are let through and every later one is refused.
pub proof fn fixed_window_admits_max_requests(times: Seq<i64>, window: i64, max_requests: u32)
    requires
        forall|i: int| 0 <= i < times.len() ==> #[trigger] times[i] - times[0] < window,
    ensures
        outcomes(None, times, window, max_requests).len() == times.len(),
        forall|i: int|
            0 <= i < times.len() ==> #[trigger] outcomes(None, times, window, max_requests)[i] == (i
                < max_requests),
{
    if times.len() > 0 {
        let t0 = times[0];
        assert(times[0] - times[0] < window);
        assert(check_step(None, t0, window, max_requests) == check_step(Some((t0, 0u32)), t0, window, max_requests));
        assert(outcomes(None, times, window, max_requests) == outcomes(
            Some((t0, 0u32)),
            times,
            window,
            max_requests,
        ));
        lemma_outcomes_in_window(t0, 0, times, window, max_requests);
    }
}

proof fn lemma_outcomes_expire(start: i64, count: u32, ts: Seq<i64>, later: Seq<i64>, window: i64, max_requests: u32)
    requires
        forall|i: int| 0 <= i < ts.len() ==> #[trigger] ts[i] - start < window,
        later.len() > 0,
        later[0] - start >= window,
    ensures
        outcomes(Some((start, count)), ts + later, window, max_requests) == outcomes(
            Some((start, count)),
            ts,
            window,
            max_requests,
        ) + outcomes(None, later, window, max_requests),
    decreases ts.len(),
{
    if ts.len() == 0 {
        assert(ts + later =~= later);
        assert(outcomes(Some((start, count)), ts, window, max_requests) =~= Seq::<bool>::empty());
        assert(check_step(Some((start, count)), later[0], window, max_requests) == check_step(
            None,
            later[0],
            window,
            max_requests,
        ));
        assert(outcomes(Some((start, count)), later, window, max_requests) == outcomes(
            None,
            later,
            window,
            max_requests,
        ));
        assert(Seq::<bool>::empty() + outcomes(None, later, window, max_requests) =~= outcomes(
            None,
            later,
            window,
            max_requests,
        ));
    } else {
        let c2: u32 = if count >= max_requests {
            count
        } else {
            (count + 1) as u32
        };
        let rest = ts.drop_first();
        assert forall|i: int| 0 <= i < rest.len() implies #[trigger] rest[i] - start < window by {
            assert(rest[i] == ts[i + 1]);
        }
        assert(ts[0] - start < window);
        assert((ts + later)[0] == ts[0]);
        assert((ts + later).drop_first() =~= rest + later);
        lemma_outcomes_expire(start, c2, rest, later, window, max_requests);
        let ok = count < max_requests;
        assert(outcomes(Some((start, count)), ts + later, window, max_requests) == seq![ok] + outcomes(
            Some((start, c2)),
            rest + later,
            window,
            max_requests,
        ));
        assert(outcomes(Some((start, count)), ts, window, max_requests) == seq![ok] + outcomes(
            Some((start, c2)),
            rest,
            window,
            max_requests,
        ));
        assert(seq![ok] + (outcomes(Some((start, c2)), rest, window, max_requests) + outcomes(
            None,
            later,
            window,
            max_requests,
        )) =~= (seq![ok] + outcomes(Some((start, c2)), rest, window, max_requests)) + outcomes(
            None,
            later,
            window,
            max_requests,
        ));
    }
}

/// A fresh key's requests fall into fixed windows: those within `window`
/// of its first request are counted together, and the first request at
/// least `window` after it is treated, with all that follow, as if the key
/// had never been seen.
pub proof fn expired_window_splits_requests(times: Seq<i64>, later: Seq<i64>, window: i64, max_requests: u32)
    requires
        times.len() > 0,
        forall|i: int| 0 <= i < times.len() ==> #[trigger] times[i] - times[0] < window,
        later.len() > 0,
        later[0] - times[0] >= window,
    ensures
        outcomes(None, times + later, window, max_requests) == outcomes(None, times, window, max_requests)
            + outcomes(None, later, window, max_requests),
{
    let t0 = times[0];
    assert(times[0] - times[0] < window);
    assert((times + later)[0] == t0);
    assert(check_step(None, t0, window, max_requests) == check_step(Some((t0, 0u32)), t0, window, max_requests));
    assert(outcomes(None, times + later, window, max_requests) == outcomes(
        Some((t0, 0u32)),
        times + later,
        window,
        max_requests,
    ));
    assert(outcomes(None, times, window, max_requests) == outcomes(
        Some((t0, 0u32)),
        times,
        window,
        max_requests,
    ));
    lemma_outcomes_expire(t0, 0, times, later, window, max_requests);
}

/// Once a key's window has run out, its next request opens a new window
/// at that time and counts as its first request there.
pub proof fn expired_window_starts_afresh(start: i64, count: u32, now: i64, window: i64, max_requests: u32)
    requires
        now - start >= window,
    ensures
        check_step(Some((start, count)), now, window, max_requests) == check_step(None, now, window, max_requests),
        check_step(None, now, window, max_requests) == if max_requests > 0 {
            (true, (now, 1u32))
        } else {
            (false, (now, 0u32))
        },
{
}

/// The claims of an issued token: the caller (`sub`), when the token
/// expires (`exp`, Unix seconds) and the caller's roles.
#[derive(Debug, Clone)]
pub struct Claims {
    pub sub: String,
    pub exp: i64,
    pub roles: Vec<String>,
}

/// The secret HS256 tokens are signed and checked with.
#[derive(Debug, Clone)]
pub struct JwtCodec {
    secret: Vec<u8>,
}

impl JwtCodec {
    pub closed spec fn key(&self) -> Seq<u8> {
        self.secret@
    }

    pub fn new(secret: &[u8]) -> (r: JwtCodec)
        ensures
            r.key() == secret@,
    {
        JwtCodec { secret: vstd::slice::slice_to_vec(secret) }
    }

    /// The signing secret.
    pub fn secret(&self) -> (r: &[u8])
        ensures
            r@ == self.key(),
    {
        self.secret.as_slice()
    }
}

} // verus!
