//! Who a request is from: an `X-Api-Key` (checked by the key registry),
//! else a session cookie, with a CSRF token required on state-changing
//! methods.
use vstd::prelude::*;
use crate::session::{SessionStore, SessionM, session_cookie, session_id_from_cookie_header, live,
    strings_model};
use crate::text::{chars_of, trim_bounds, trim, string_of_range};

verus! {

pub const UNAUTHORIZED: u16 = 401;
pub const FORBIDDEN: u16 = 403;

/// The identity a request was established to come from.
#[derive(Debug, Clone)]
pub struct Actor {
    pub owner: String,
    pub roles: Vec<String>,
    /// Whether it came from a session cookie rather than `X-Api-Key`.
    pub via_session: bool,
}

pub struct ActorM {
    pub owner: Seq<char>,
    pub roles: Seq<Seq<char>>,
    pub via_session: bool,
}

impl Actor {
    pub open spec fn model(self) -> ActorM {
        ActorM { owner: self.owner@, roles: strings_model(self.roles@), via_session: self.via_session }
    }
}

/// What the key registry said of a presented API key.
#[derive(Debug, Clone)]
pub enum KeyDecision {
    /// No keys are registered (development mode): any key passes.
    RegistryEmpty,
    /// A valid key, with its owner and roles.
    Valid { owner: String, roles: Vec<String> },
    /// An unknown, revoked or expired key.
    Rejected,
    /// The key's owner is suspended.
    Suspended,
}

/// The API key a request presents: the header's text, trimmed, unless
/// that is empty.
pub open spec fn api_key_text(header: Option<Seq<char>>) -> Option<Seq<char>> {
    match header {
        Some(t) => if trim(t).len() > 0 {
            Some(trim(t))
        } else {
            None
        },
        None => None,
    }
}

pub fn presented_api_key(header: Option<&str>) -> (r: Option<String>)
    ensures
        match api_key_text(
            match header {
                Some(h) => Some(h@),
                None => None,
            },
        ) {
            Some(k) => r matches Some(s) && s@ == k,
            None => r is None,
        },
{
    match header {
        Some(h) => {
            let v = chars_of(h);
            assert(v@.subrange(0, v@.len() as int) =~= v@);
            let (a, b) = trim_bounds(&v, 0, v.len());
            if a < b {
                Some(string_of_range(&v, a, b))
            } else {
                None
            }
        },
        None => None,
    }
}

/// The API-key-only check: a key must be presented (`None` when it was
/// not) and the registry must accept it or have no keys; else 401.
pub fn check_api_key(decision: Option<KeyDecision>) -> (r: Result<(), u16>)
    ensures
        match decision {
            Some(KeyDecision::RegistryEmpty) | Some(KeyDecision::Valid { .. }) => r is Ok,
            _ => r == Err::<(), u16>(UNAUTHORIZED),
        },
{
    match decision {
        Some(KeyDecision::RegistryEmpty) => Ok(()),
        Some(KeyDecision::Valid { .. }) => Ok(()),
        _ => Err(UNAUTHORIZED),
    }
}

pub open spec fn dev_owner() -> Seq<char> {
    seq!['d', 'e', 'v']
}

/// The actor a key decision gives: `dev` with no roles for an empty
/// registry, the key's owner and roles for a valid key, else 401.
pub open spec fn key_actor(d: KeyDecision) -> Result<ActorM, u16> {
    match d {
        KeyDecision::RegistryEmpty => Ok(ActorM { owner: dev_owner(), roles: Seq::empty(), via_session: false }),
        KeyDecision::Valid { owner, roles } => Ok(
            ActorM { owner: owner@, roles: strings_model(roles@), via_session: false },
        ),
        _ => Err(UNAUTHORIZED),
    }
}

pub open spec fn result_model(r: Result<Actor, u16>) -> Result<ActorM, u16> {
    match r {
        Ok(a) => Ok(a.model()),
        Err(e) => Err(e),
    }
}

pub fn actor_for_key(d: KeyDecision) -> (r: Result<Actor, u16>)
    ensures
        result_model(r) == key_actor(d),
{
    match d {
        KeyDecision::RegistryEmpty => {
            let owner = crate::text::chars_string(['d', 'e', 'v'].as_slice());
            let r = Actor { owner, roles: Vec::new(), via_session: false };
            assert(strings_model(r.roles@) =~= Seq::<Seq<char>>::empty());
            Ok(r)
        },
        KeyDecision::Valid { owner, roles } => Ok(Actor { owner, roles, via_session: false }),
        _ => Err(UNAUTHORIZED),
    }
}

/// `POST`, `PUT`, `PATCH` and `DELETE`.
pub open spec fn state_changing(method: Seq<char>) -> bool {
    method == "POST"@ || method == "PUT"@ || method == "PATCH"@ || method == "DELETE"@
}

pub fn is_state_changing(method: &str) -> (r: bool)
    ensures
        r == state_changing(method@),
{
    let m = method.to_owned();
    m == "POST".to_owned() || m == "PUT".to_owned() || m == "PATCH".to_owned() || m == "DELETE".to_owned()
}

/// The actor a session gives: 401 without a live session; 403 when the
/// method changes state and the CSRF header is missing, empty or differs
/// from the session's token.
pub open spec fn session_actor(s: Option<SessionM>, method: Seq<char>, csrf: Option<Seq<char>>) -> Result<ActorM, u16> {
    match s {
        None => Err(UNAUTHORIZED),
        Some(d) => {
            let provided = match csrf {
                Some(c) => c,
                None => Seq::empty(),
            };
            if state_changing(method) && (provided.len() == 0 || provided != d.csrf_token) {
                Err(FORBIDDEN)
            } else {
                Ok(ActorM { owner: d.owner, roles: d.roles, via_session: true })
            }
        },
    }
}

pub open spec fn opt_str(o: Option<&str>) -> Option<Seq<char>> {
    match o {
        Some(s) => Some(s@),
        None => None,
    }
}

/// Authenticates a request at time `now`. `key_decision` is the registry's
/// verdict on the presented API key, `None` when none was presented (see
/// [`presented_api_key`]); a presented key decides alone. Otherwise the
/// session named by the `Cookie` header is looked up (an expired one is
/// dropped).
pub fn authenticate_at(
    key_decision: Option<KeyDecision>,
    cookie: Option<&str>,
    sessions: &mut SessionStore,
    method: &str,
    csrf: Option<&str>,
    now: i64,
) -> (r: Result<Actor, u16>)
    ensures
        match key_decision {
            Some(d) => result_model(r) == key_actor(d) && *final(sessions) == *old(sessions),
            None => match cookie {
                Some(raw) => match session_cookie(raw@) {
                    Some(id) => {
                        &&& result_model(r) == session_actor(
                            live(old(sessions).session(id), now),
                            method@,
                            opt_str(csrf),
                        )
                        &&& forall|x: Seq<char>|
                            #[trigger] final(sessions).session(x) == if x == id && old(sessions).session(x) is Some
                                && live(old(sessions).session(x), now) is None {
                                None
                            } else {
                                old(sessions).session(x)
                            }
                    },
                    None => r == Err::<Actor, u16>(UNAUTHORIZED) && *final(sessions) == *old(sessions),
                },
                None => r == Err::<Actor, u16>(UNAUTHORIZED) && *final(sessions) == *old(sessions),
            },
        },
{
    match key_decision {
        Some(d) => return actor_for_key(d),
        None => {},
    }
    let id = match session_id_from_cookie_header(cookie) {
        Some(id) => id,
        None => return Err(UNAUTHORIZED),
    };
    let data = match sessions.get_at(id.as_str(), now) {
        Some(d) => d,
        None => return Err(UNAUTHORIZED),
    };
    if is_state_changing(method) {
        let provided = match csrf {
            Some(c) => c.to_owned(),
            None => String::new(),
        };
        if provided.as_str().is_empty() || !(provided == data.csrf_token) {
            return Err(FORBIDDEN);
        }
    }
    Ok(Actor { owner: data.owner, roles: data.roles, via_session: true })
}

/// At most the first four characters of a key: enough to tell keys apart
/// in an audit trail without revealing them.
pub open spec fn key_hint(k: Seq<char>) -> Seq<char> {
    if k.len() <= 4 {
        k
    } else {
        k.subrange(0, 4)
    }
}

/// The actor an audit record names for a request: `api-key:`, the key's
/// first four characters and `***` when an `X-Api-Key` is present and not
/// empty, else `anonymous`.
pub fn audit_actor(api_key: Option<&str>) -> (r: String)
    ensures
        r@ == match api_key {
            Some(k) => if k@.len() > 0 {
                "api-key:"@ + key_hint(k@) + "***"@
            } else {
                "anonymous"@
            },
            None => "anonymous"@,
        },
{
    match api_key {
        Some(k) => {
            if k.is_empty() {
                return "anonymous".to_owned();
            }
            let v = chars_of(k);
            let n: usize = if v.len() < 4 { v.len() } else { 4 };
            let hint = string_of_range(&v, 0, n);
            proof {
                if k@.len() <= 4 {
                    assert(v@.subrange(0, n as int) =~= k@);
                }
            }
            let mut s = "api-key:".to_owned();
            s.append(hint.as_str());
            s.append("***");
            s
        },
        None => "anonymous".to_owned(),
    }
}

} // verus!
