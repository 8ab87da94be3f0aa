use open_runo::validation::{
    validate, validation_outcome, DB_UPSERT_REQUEST, FEATURE_FLAG_REQUEST, REGISTER_SCHEMA_REQUEST,
};

#[test]
fn register_schema_request_accepts_valid_body() {
    let body = r#"{ "service_name": "users", "sdl": "type User { id: ID! }" }"#;
    assert!(validate(REGISTER_SCHEMA_REQUEST, body).is_ok());
}

#[test]
fn register_schema_request_rejects_missing_sdl() {
    let body = r#"{ "service_name": "users" }"#;
    assert!(validate(REGISTER_SCHEMA_REQUEST, body).is_err());
}

#[test]
fn register_schema_request_rejects_empty_service_name() {
    let body = r#"{ "service_name": "", "sdl": "type User { id: ID! }" }"#;
    assert!(validate(REGISTER_SCHEMA_REQUEST, body).is_err());
}

#[test]
fn db_upsert_request_requires_value_field() {
    assert!(validate(DB_UPSERT_REQUEST, "{}").is_err());
    assert!(validate(DB_UPSERT_REQUEST, r#"{ "value": 42 }"#).is_ok());
}

#[test]
fn feature_flag_request_requires_name() {
    assert!(validate(FEATURE_FLAG_REQUEST, "{}").is_err());
    assert!(validate(FEATURE_FLAG_REQUEST, r#"{ "name": "f" }"#).is_ok());
}

#[test]
fn feature_flag_request_rejects_rollout_percent_over_100() {
    assert!(validate(FEATURE_FLAG_REQUEST, r#"{ "name": "f", "rollout_percent": 101 }"#).is_err());
}

#[test]
fn violations_are_listed_with_their_locations() {
    assert_eq!(validation_outcome(&vec![]), Ok(()));
    let one = vec![("\"name\" is a required property".to_string(), "".to_string())];
    assert_eq!(
        validation_outcome(&one),
        Err("request body failed validation: \"name\" is a required property (at )".to_string())
    );
    let two = vec![("a".to_string(), "/x".to_string()), ("b".to_string(), "/y/0".to_string())];
    assert_eq!(validation_outcome(&two), Err("request body failed validation: a (at /x); b (at /y/0)".to_string()));
}

#[test]
fn a_rejected_body_names_the_missing_property() {
    let message = validate(DB_UPSERT_REQUEST, "{}").unwrap_err();
    assert_eq!(message, "request body failed validation: \"value\" is a required property (at )");
}

#[test]
fn text_that_is_not_json_is_refused() {
    assert_eq!(
        validate(DB_UPSERT_REQUEST, "not json"),
        Err("request body failed validation: invalid JSON schema or body".to_string())
    );
}
