use open_runo::openapi::openapi_document;
use open_runo::rustjson::to_string;

#[test]
fn openapi_document_is_valid_json_and_lists_known_paths() {
    let text = to_string(&openapi_document("1.2.3"));
    let v: serde_json::Value = serde_json::from_str(&text).unwrap();
    assert_eq!(v["openapi"], "3.0.3");
    assert_eq!(v["info"]["version"], "1.2.3");
    assert_eq!(v["info"]["title"], "open-runo REST API");
    let paths = v["paths"].as_object().unwrap();
    assert_eq!(paths.len(), 28);
    for p in ["/health", "/healthz", "/api/schemas", "/api/db/{table}/{key}", "/scim/v2/Users/{id}", "/api/events"] {
        assert!(paths.contains_key(p), "missing {p}");
    }
    assert_eq!(v["paths"]["/health"]["get"]["security"], serde_json::Value::Array(vec![]));
    assert_eq!(v["paths"]["/api/schemas"]["post"]["security"][0]["ApiKeyAuth"], serde_json::Value::Array(vec![]));
    assert_eq!(v["paths"]["/api/db/{table}/{key}"]["put"]["parameters"][1]["name"], "key");
    assert_eq!(v["paths"]["/scim/v2/Users"]["post"]["responses"]["409"]["description"], "userName already exists");
}

#[test]
fn openapi_members_are_in_key_order() {
    let text = to_string(&openapi_document("0.1.0"));
    let v: serde_json::Value = serde_json::from_str(&text).unwrap();
    assert_eq!(serde_json::to_string(&v).unwrap(), text);
}
