use open_runo::auth::{
    actor_for_key, audit_actor, authenticate_at, check_api_key, is_state_changing, presented_api_key, KeyDecision, FORBIDDEN,
    UNAUTHORIZED,
};
use open_runo::session::{
    clear_cookie_header, session_id_from_cookie_header, set_cookie_header, SessionStore, SESSION_TTL_HOURS,
};

const HOUR: i64 = 3_600_000_000;

#[test]
fn create_then_get_returns_matching_session() {
    let mut store = SessionStore::new();
    let (session_id, csrf_token) = store.create("alice".to_string(), vec!["developer".to_string()]);
    let data = store.get(&session_id).expect("session should exist");
    assert_eq!(data.owner, "alice");
    assert_eq!(data.roles, vec!["developer".to_string()]);
    assert_eq!(data.csrf_token, csrf_token);
    assert_eq!(session_id.len(), 72);
}

#[test]
fn get_returns_none_for_unknown_session() {
    let mut store = SessionStore::new();
    assert!(store.get("no-such-session").is_none());
}

#[test]
fn destroy_removes_the_session() {
    let mut store = SessionStore::new();
    let (session_id, _) = store.create("bob".to_string(), vec![]);
    assert!(store.get(&session_id).is_some());
    store.destroy(&session_id);
    assert!(store.get(&session_id).is_none());
    assert_eq!(store.len(), 0);
}

#[test]
fn expired_session_is_lazily_evicted() {
    let mut store = SessionStore::new();
    let now = 1_700_000_000_000_000;
    store.create_with("carol".to_string(), vec![], "sid".to_string(), "tok".to_string(), now);
    assert!(store.get_at("sid", now + SESSION_TTL_HOURS * HOUR - 1).is_some());
    assert_eq!(store.len(), 1);
    assert!(store.get_at("sid", now + SESSION_TTL_HOURS * HOUR).is_none());
    assert_eq!(store.len(), 0, "expired session should have been evicted on lookup");
}

#[test]
fn session_id_from_cookie_header_finds_the_right_cookie_among_several() {
    assert_eq!(
        session_id_from_cookie_header(Some("other=1; orn_session=abc123; third=xyz")),
        Some("abc123".to_string())
    );
}

#[test]
fn session_id_from_cookie_header_none_when_missing() {
    assert_eq!(session_id_from_cookie_header(None), None);
    assert_eq!(session_id_from_cookie_header(Some("other=1")), None);
}

#[test]
fn set_cookie_header_is_http_only_and_same_site_strict() {
    let header = set_cookie_header("abc123");
    assert!(header.contains("orn_session=abc123"));
    assert!(header.contains("HttpOnly"));
    assert!(header.contains("SameSite=Strict"));
    assert_eq!(header, "orn_session=abc123; HttpOnly; SameSite=Strict; Path=/; Max-Age=43200");
}

#[test]
fn clear_cookie_header_expires_immediately() {
    let header = clear_cookie_header();
    assert!(header.contains("Max-Age=0"));
}

#[test]
fn api_key_is_trimmed_and_must_not_be_empty() {
    assert_eq!(presented_api_key(Some("  k1 ")), Some("k1".to_string()));
    assert_eq!(presented_api_key(Some("   ")), None);
    assert_eq!(presented_api_key(None), None);
    assert_eq!(check_api_key(None), Err(UNAUTHORIZED));
    assert_eq!(check_api_key(Some(KeyDecision::RegistryEmpty)), Ok(()));
    assert_eq!(check_api_key(Some(KeyDecision::Suspended)), Err(UNAUTHORIZED));
}

#[test]
fn key_decisions_give_actors() {
    let a = actor_for_key(KeyDecision::RegistryEmpty).unwrap();
    assert_eq!(a.owner, "dev");
    assert!(!a.via_session);
    let a = actor_for_key(KeyDecision::Valid { owner: "erin".into(), roles: vec!["admin".into()] }).unwrap();
    assert_eq!(a.roles, vec!["admin".to_string()]);
    assert_eq!(actor_for_key(KeyDecision::Rejected).err(), Some(UNAUTHORIZED));
}

#[test]
fn session_requests_need_a_matching_csrf_token_to_change_state() {
    let now = 1_700_000_000_000_000;
    let mut store = SessionStore::new();
    store.create_with("dana".into(), vec![], "s1".into(), "t1".into(), now);
    let cookie = Some("orn_session=s1");
    let a = authenticate_at(None, cookie, &mut store, "GET", None, now).unwrap();
    assert_eq!(a.owner, "dana");
    assert!(a.via_session);
    assert_eq!(authenticate_at(None, cookie, &mut store, "POST", None, now).err(), Some(FORBIDDEN));
    assert_eq!(authenticate_at(None, cookie, &mut store, "POST", Some("nope"), now).err(), Some(FORBIDDEN));
    assert!(authenticate_at(None, cookie, &mut store, "DELETE", Some("t1"), now).is_ok());
    assert_eq!(authenticate_at(None, None, &mut store, "GET", None, now).err(), Some(UNAUTHORIZED));
    assert_eq!(
        authenticate_at(None, Some("orn_session=unknown"), &mut store, "GET", None, now).err(),
        Some(UNAUTHORIZED)
    );
    let via_key = authenticate_at(Some(KeyDecision::RegistryEmpty), cookie, &mut store, "POST", None, now).unwrap();
    assert!(!via_key.via_session);
    assert!(is_state_changing("PATCH"));
    assert!(!is_state_changing("OPTIONS"));
}

#[test]
fn audit_actor_masks_all_but_four_key_characters() {
    assert_eq!(audit_actor(Some("secret-key-123")), "api-key:secr***");
    assert_eq!(audit_actor(Some("ab")), "api-key:ab***");
    assert_eq!(audit_actor(Some("")), "anonymous");
    assert_eq!(audit_actor(None), "anonymous");
}
