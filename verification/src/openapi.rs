//! The OpenAPI 3.0 document of the REST admin surface, as a JSON value:
//! every operation with its summary, its path parameters, its responses
//! and whether it needs the API key. Object members are in the order of
//! their keys, as a sorted map writes them.
use vstd::prelude::*;
use crate::rustjson::{Json, JsonValue, member_models, models};

verus! {

/// A response: its description.
pub open spec fn desc_model(d: Seq<char>) -> Json {
    Json::Object(Seq::empty().push(("description"@, Json::Str(d))))
}

pub open spec fn responses1_model(c: Seq<char>, d: Seq<char>) -> Json {
    Json::Object(Seq::empty().push((c, desc_model(d))))
}

pub open spec fn responses2_model(c1: Seq<char>, d1: Seq<char>, c2: Seq<char>, d2: Seq<char>) -> Json {
    Json::Object(Seq::empty().push((c1, desc_model(d1))).push((c2, desc_model(d2))))
}

/// A required string parameter of the path.
pub open spec fn param_model(n: Seq<char>) -> Json {
    Json::Object(
        Seq::empty()
            .push(("in"@, Json::Str("path"@)))
            .push(("name"@, Json::Str(n)))
            .push(("required"@, Json::Bool(true)))
            .push(("schema"@, Json::Object(Seq::empty().push(("type"@, Json::Str("string"@)))))),
    )
}

pub open spec fn params1_model(n: Seq<char>) -> Json {
    Json::Array(Seq::empty().push(param_model(n)))
}

pub open spec fn params2_model(n1: Seq<char>, n2: Seq<char>) -> Json {
    Json::Array(Seq::empty().push(param_model(n1)).push(param_model(n2)))
}

/// The security requirement: the API key, or none.
pub open spec fn security_model(secured: bool) -> Json {
    if secured {
        Json::Array(Seq::empty()
            .push(Json::Object(Seq::empty().push(("ApiKeyAuth"@, Json::Array(Seq::empty()))))))
    } else {
        Json::Array(Seq::empty())
    }
}

/// An operation.
pub open spec fn op_model(summary: Seq<char>, secured: bool, params: Option<Json>, responses: Json) -> Json {
    match params {
        Some(p) => Json::Object(
            Seq::empty()
                .push(("parameters"@, p))
                .push(("responses"@, responses))
                .push(("security"@, security_model(secured)))
                .push(("summary"@, Json::Str(summary))),
        ),
        None => Json::Object(
            Seq::empty()
                .push(("responses"@, responses))
                .push(("security"@, security_model(secured)))
                .push(("summary"@, Json::Str(summary))),
        ),
    }
}

/// A path item with one, two or three operations, by method.
pub open spec fn item1_model(m: Seq<char>, o: Json) -> Json {
    Json::Object(Seq::empty().push((m, o)))
}

pub open spec fn item2_model(m1: Seq<char>, o1: Json, m2: Seq<char>, o2: Json) -> Json {
    Json::Object(Seq::empty().push((m1, o1)).push((m2, o2)))
}

pub open spec fn item3_model(m1: Seq<char>, o1: Json, m2: Seq<char>, o2: Json, m3: Seq<char>, o3: Json) -> Json {
    Json::Object(Seq::empty().push((m1, o1)).push((m2, o2)).push((m3, o3)))
}

/// The paths and their operations.
pub open spec fn paths_model() -> Seq<(Seq<char>, Json)> {
    Seq::empty()
        .push(("/api/ai/route"@, item1_model("post"@, op_model("Select the best AI provider for a request"@, true, None, responses1_model("200"@, "OK"@)))))
        .push(("/api/backup/export"@, item1_model("post"@, op_model("Export a portable backup"@, true, None, responses1_model("200"@, "Exported"@)))))
        .push(("/api/backup/import"@, item1_model("post"@, op_model("Import a portable backup"@, true, None, responses1_model("200"@, "Imported"@)))))
        .push(("/api/backup/restore-latest"@, item1_model("post"@, op_model("Restore from the newest available backup"@, true, None, responses2_model("200"@, "Restored"@, "404"@, "No backup found"@)))))
        .push(("/api/cache/ai-stats"@, item1_model("get"@, op_model("Self-learning cache predictor stats"@, true, None, responses1_model("200"@, "OK"@)))))
        .push(("/api/cache/purge"@, item1_model("post"@, op_model("Purge one HTML page from the cache"@, true, None, responses1_model("200"@, "Purged"@)))))
        .push(("/api/cache/purge-all"@, item1_model("post"@, op_model("Purge the entire HTML page cache"@, true, None, responses1_model("200"@, "Purged"@)))))
        .push(("/api/db/routing"@, item1_model("get"@, op_model("Per-table routing decisions"@, true, None, responses1_model("200"@, "OK"@)))))
        .push(("/api/db/status"@, item1_model("get"@, op_model("DUAL DATABASE backend name & health"@, true, None, responses1_model("200"@, "OK"@)))))
        .push(("/api/db/{table}"@, item1_model("get"@, op_model("List all records in a table"@, true, Some(params1_model("table"@)), responses1_model("200"@, "OK"@)))))
        .push(("/api/db/{table}/{key}"@, item3_model("delete"@, op_model("Delete a record"@, true, Some(params2_model("table"@, "key"@)), responses1_model("200"@, "Deleted"@)), "get"@, op_model("Get one record"@, true, Some(params2_model("table"@, "key"@)), responses2_model("200"@, "OK"@, "404"@, "Not found"@)), "put"@, op_model("Upsert a record"@, true, Some(params2_model("table"@, "key"@)), responses1_model("200"@, "Saved"@)))))
        .push(("/api/events"@, item1_model("get"@, op_model("Server-Sent Events stream of schema/federation changes"@, true, None, responses1_model("200"@, "text/event-stream"@)))))
        .push(("/api/federation/compose"@, item1_model("post"@, op_model("Compose service schemas into a federated graph"@, true, None, responses1_model("200"@, "Composed"@)))))
        .push(("/api/federation/status"@, item1_model("get"@, op_model("Current composed schema summary"@, true, None, responses1_model("200"@, "OK"@)))))
        .push(("/api/integrity/check"@, item1_model("post"@, op_model("Two-database reconciliation, self-healing"@, true, None, responses1_model("200"@, "OK"@)))))
        .push(("/api/migrate/export-csv"@, item1_model("post"@, op_model("CSV export for BI/Snowflake ingestion"@, true, None, responses1_model("200"@, "OK"@)))))
        .push(("/api/migrate/export-sql"@, item1_model("post"@, op_model("SQL dump for engine migration (postgres/mysql/generic)"@, true, None, responses1_model("200"@, "OK"@)))))
        .push(("/api/persisted-queries"@, item1_model("post"@, op_model("Register a GraphQL document (Trusted Documents)"@, true, None, responses1_model("200"@, "Registered"@)))))
        .push(("/api/persisted-queries/{hash}"@, item1_model("get"@, op_model("Fetch a registered document by hash"@, true, Some(params1_model("hash"@)), responses2_model("200"@, "OK"@, "404"@, "Not found"@)))))
        .push(("/api/schemas"@, item1_model("post"@, op_model("Register a schema version"@, true, None, responses2_model("200"@, "Registered"@, "422"@, "Validation failed"@)))))
        .push(("/api/schemas/{service}"@, item1_model("get"@, op_model("Latest schema for a service"@, true, Some(params1_model("service"@)), responses2_model("200"@, "OK"@, "404"@, "Not found"@)))))
        .push(("/api/schemas/{service}/history"@, item1_model("get"@, op_model("Full schema version history"@, true, Some(params1_model("service"@)), responses1_model("200"@, "OK"@)))))
        .push(("/health"@, item1_model("get"@, op_model("Service health check"@, false, None, responses1_model("200"@, "OK"@)))))
        .push(("/healthz"@, item1_model("get"@, op_model("Kubernetes-style health alias"@, false, None, responses1_model("200"@, "OK"@)))))
        .push(("/scim/v2/Groups"@, item2_model("get"@, op_model("List SCIM groups"@, true, None, responses1_model("200"@, "OK"@)), "post"@, op_model("Create a SCIM group"@, true, None, responses1_model("201"@, "Created"@)))))
        .push(("/scim/v2/Groups/{id}"@, item3_model("delete"@, op_model("Delete a SCIM group"@, true, Some(params1_model("id"@)), responses1_model("204"@, "Deleted"@)), "get"@, op_model("Fetch a SCIM group"@, true, Some(params1_model("id"@)), responses1_model("200"@, "OK"@)), "put"@, op_model("Replace a SCIM group's membership"@, true, Some(params1_model("id"@)), responses1_model("200"@, "OK"@)))))
        .push(("/scim/v2/Users"@, item2_model("get"@, op_model("List SCIM users (RFC 7644)"@, true, None, responses1_model("200"@, "OK"@)), "post"@, op_model("Create a SCIM user (auto-issues an API key)"@, true, None, responses2_model("201"@, "Created"@, "409"@, "userName already exists"@)))))
        .push(("/scim/v2/Users/{id}"@, item3_model("delete"@, op_model("Delete a SCIM user (auto-revokes keys)"@, true, Some(params1_model("id"@)), responses1_model("204"@, "Deleted"@)), "get"@, op_model("Fetch a SCIM user"@, true, Some(params1_model("id"@)), responses1_model("200"@, "OK"@)), "put"@, op_model("Replace a SCIM user (deactivation auto-revokes keys)"@, true, Some(params1_model("id"@)), responses1_model("200"@, "OK"@)))))
}

/// The document, for the server version `version`.
pub open spec fn openapi_model(version: Seq<char>) -> Json {
    Json::Object(
        Seq::empty().push((
                "components"@,
                Json::Object(
                    Seq::empty().push((
                            "securitySchemes"@,
                            Json::Object(
                                Seq::empty().push((
                                        "ApiKeyAuth"@,
                                        Json::Object(
                                            Seq::empty()
                                                .push(("in"@, Json::Str("header"@)))
                                                .push(("name"@, Json::Str("X-Api-Key"@)))
                                                .push(("type"@, Json::Str("apiKey"@))),
                                        ),
                                    )),
                            ),
                        )),
                ),
            )).push((
                "info"@,
                Json::Object(
                    Seq::empty()
                        .push(("description"@, Json::Str(info_description()@)))
                        .push(("title"@, Json::Str("open-runo REST API"@)))
                        .push(("version"@, Json::Str(version))),
                ),
            )).push(("openapi"@, Json::Str("3.0.3"@))).push(("paths"@, Json::Object(paths_model()))),
    )
}

/// What the document says of itself.
pub const INFO_DESCRIPTION: &'static str = "REST admin surface for open-runo-router. GraphQL Federation is served separately at POST /graphql (GraphiQL at GET /graphql).";

pub open spec fn info_description() -> &'static str {
    INFO_DESCRIPTION
}

pub open spec fn opt_json(o: Option<JsonValue>) -> Option<Json> {
    match o {
        Some(v) => Some(v.model()),
        None => None,
    }
}

/// Appends the member `k`: `v` to an object's members.
fn put(m: &mut Vec<(String, JsonValue)>, k: &str, v: JsonValue)
    ensures
        member_models(final(m)@) == member_models(old(m)@).push((k@, v.model())),
{
    let ghost before = m@;
    let key = k.to_owned();
    let ghost e = (key, v);
    m.push((key, v));
    assert(m@.drop_last() =~= before);
    assert(m@.last() == e);
}

/// Appends `v` to an array's items.
fn push_item(a: &mut Vec<JsonValue>, v: JsonValue)
    ensures
        models(final(a)@) == models(old(a)@).push(v.model()),
{
    let ghost before = a@;
    let ghost vv = v;
    a.push(v);
    assert(a@.drop_last() =~= before);
    assert(a@.last() == vv);
}

fn jstr(s: &str) -> (r: JsonValue)
    ensures
        r.model() == Json::Str(s@),
{
    JsonValue::String(s.to_owned())
}

fn desc(d: &str) -> (r: JsonValue)
    ensures
        r.model() == desc_model(d@),
{
    let mut m: Vec<(String, JsonValue)> = Vec::new();
    put(&mut m, "description", jstr(d));
    JsonValue::Object(m)
}

fn responses1(c: &str, d: &str) -> (r: JsonValue)
    ensures
        r.model() == responses1_model(c@, d@),
{
    let mut m: Vec<(String, JsonValue)> = Vec::new();
    put(&mut m, c, desc(d));
    JsonValue::Object(m)
}

fn responses2(c1: &str, d1: &str, c2: &str, d2: &str) -> (r: JsonValue)
    ensures
        r.model() == responses2_model(c1@, d1@, c2@, d2@),
{
    let mut m: Vec<(String, JsonValue)> = Vec::new();
    put(&mut m, c1, desc(d1));
    put(&mut m, c2, desc(d2));
    JsonValue::Object(m)
}

fn param(n: &str) -> (r: JsonValue)
    ensures
        r.model() == param_model(n@),
{
    let mut schema: Vec<(String, JsonValue)> = Vec::new();
    put(&mut schema, "type", jstr("string"));
    let mut m: Vec<(String, JsonValue)> = Vec::new();
    put(&mut m, "in", jstr("path"));
    put(&mut m, "name", jstr(n));
    put(&mut m, "required", JsonValue::Bool(true));
    put(&mut m, "schema", JsonValue::Object(schema));
    JsonValue::Object(m)
}

fn params1(n: &str) -> (r: JsonValue)
    ensures
        r.model() == params1_model(n@),
{
    let mut a: Vec<JsonValue> = Vec::new();
    push_item(&mut a, param(n));
    JsonValue::Array(a)
}

fn params2(n1: &str, n2: &str) -> (r: JsonValue)
    ensures
        r.model() == params2_model(n1@, n2@),
{
    let mut a: Vec<JsonValue> = Vec::new();
    push_item(&mut a, param(n1));
    push_item(&mut a, param(n2));
    JsonValue::Array(a)
}

fn security(secured: bool) -> (r: JsonValue)
    ensures
        r.model() == security_model(secured),
{
    let mut a: Vec<JsonValue> = Vec::new();
    if secured {
        let mut m: Vec<(String, JsonValue)> = Vec::new();
        put(&mut m, "ApiKeyAuth", JsonValue::Array(Vec::new()));
        push_item(&mut a, JsonValue::Object(m));
    }
    JsonValue::Array(a)
}

fn op(summary: &str, secured: bool, params: Option<JsonValue>, responses: JsonValue) -> (r: JsonValue)
    ensures
        r.model() == op_model(summary@, secured, opt_json(params), responses.model()),
{
    let mut m: Vec<(String, JsonValue)> = Vec::new();
    match params {
        Some(p) => put(&mut m, "parameters", p),
        None => {},
    }
    put(&mut m, "responses", responses);
    put(&mut m, "security", security(secured));
    put(&mut m, "summary", jstr(summary));
    JsonValue::Object(m)
}

fn item1(m: &str, o: JsonValue) -> (r: JsonValue)
    ensures
        r.model() == item1_model(m@, o.model()),
{
    let mut v: Vec<(String, JsonValue)> = Vec::new();
    put(&mut v, m, o);
    JsonValue::Object(v)
}

fn item2(m1: &str, o1: JsonValue, m2: &str, o2: JsonValue) -> (r: JsonValue)
    ensures
        r.model() == item2_model(m1@, o1.model(), m2@, o2.model()),
{
    let mut v: Vec<(String, JsonValue)> = Vec::new();
    put(&mut v, m1, o1);
    put(&mut v, m2, o2);
    JsonValue::Object(v)
}

fn item3(m1: &str, o1: JsonValue, m2: &str, o2: JsonValue, m3: &str, o3: JsonValue) -> (r: JsonValue)
    ensures
        r.model() == item3_model(m1@, o1.model(), m2@, o2.model(), m3@, o3.model()),
{
    let mut v: Vec<(String, JsonValue)> = Vec::new();
    put(&mut v, m1, o1);
    put(&mut v, m2, o2);
    put(&mut v, m3, o3);
    JsonValue::Object(v)
}

/// The paths object's members.
#[verifier::rlimit(50)]
fn paths() -> (r: Vec<(String, JsonValue)>)
    ensures
        member_models(r@) == paths_model(),
{
    let mut paths: Vec<(String, JsonValue)> = Vec::new();
    put(&mut paths, "/api/ai/route", item1("post", op("Select the best AI provider for a request", true, None, responses1("200", "OK"))));
    put(&mut paths, "/api/backup/export", item1("post", op("Export a portable backup", true, None, responses1("200", "Exported"))));
    put(&mut paths, "/api/backup/import", item1("post", op("Import a portable backup", true, None, responses1("200", "Imported"))));
    put(&mut paths, "/api/backup/restore-latest", item1("post", op("Restore from the newest available backup", true, None, responses2("200", "Restored", "404", "No backup found"))));
    put(&mut paths, "/api/cache/ai-stats", item1("get", op("Self-learning cache predictor stats", true, None, responses1("200", "OK"))));
    put(&mut paths, "/api/cache/purge", item1("post", op("Purge one HTML page from the cache", true, None, responses1("200", "Purged"))));
    put(&mut paths, "/api/cache/purge-all", item1("post", op("Purge the entire HTML page cache", true, None, responses1("200", "Purged"))));
    put(&mut paths, "/api/db/routing", item1("get", op("Per-table routing decisions", true, None, responses1("200", "OK"))));
    put(&mut paths, "/api/db/status", item1("get", op("DUAL DATABASE backend name & health", true, None, responses1("200", "OK"))));
    put(&mut paths, "/api/db/{table}", item1("get", op("List all records in a table", true, Some(params1("table")), responses1("200", "OK"))));
    put(&mut paths, "/api/db/{table}/{key}", item3("delete", op("Delete a record", true, Some(params2("table", "key")), responses1("200", "Deleted")), "get", op("Get one record", true, Some(params2("table", "key")), responses2("200", "OK", "404", "Not found")), "put", op("Upsert a record", true, Some(params2("table", "key")), responses1("200", "Saved"))));
    put(&mut paths, "/api/events", item1("get", op("Server-Sent Events stream of schema/federation changes", true, None, responses1("200", "text/event-stream"))));
    put(&mut paths, "/api/federation/compose", item1("post", op("Compose service schemas into a federated graph", true, None, responses1("200", "Composed"))));
    put(&mut paths, "/api/federation/status", item1("get", op("Current composed schema summary", true, None, responses1("200", "OK"))));
    put(&mut paths, "/api/integrity/check", item1("post", op("Two-database reconciliation, self-healing", true, None, responses1("200", "OK"))));
    put(&mut paths, "/api/migrate/export-csv", item1("post", op("CSV export for BI/Snowflake ingestion", true, None, responses1("200", "OK"))));
    put(&mut paths, "/api/migrate/export-sql", item1("post", op("SQL dump for engine migration (postgres/mysql/generic)", true, None, responses1("200", "OK"))));
    put(&mut paths, "/api/persisted-queries", item1("post", op("Register a GraphQL document (Trusted Documents)", true, None, responses1("200", "Registered"))));
    put(&mut paths, "/api/persisted-queries/{hash}", item1("get", op("Fetch a registered document by hash", true, Some(params1("hash")), responses2("200", "OK", "404", "Not found"))));
    put(&mut paths, "/api/schemas", item1("post", op("Register a schema version", true, None, responses2("200", "Registered", "422", "Validation failed"))));
    put(&mut paths, "/api/schemas/{service}", item1("get", op("Latest schema for a service", true, Some(params1("service")), responses2("200", "OK", "404", "Not found"))));
    put(&mut paths, "/api/schemas/{service}/history", item1("get", op("Full schema version history", true, Some(params1("service")), responses1("200", "OK"))));
    put(&mut paths, "/health", item1("get", op("Service health check", false, None, responses1("200", "OK"))));
    put(&mut paths, "/healthz", item1("get", op("Kubernetes-style health alias", false, None, responses1("200", "OK"))));
    put(&mut paths, "/scim/v2/Groups", item2("get", op("List SCIM groups", true, None, responses1("200", "OK")), "post", op("Create a SCIM group", true, None, responses1("201", "Created"))));
    put(&mut paths, "/scim/v2/Groups/{id}", item3("delete", op("Delete a SCIM group", true, Some(params1("id")), responses1("204", "Deleted")), "get", op("Fetch a SCIM group", true, Some(params1("id")), responses1("200", "OK")), "put", op("Replace a SCIM group's membership", true, Some(params1("id")), responses1("200", "OK"))));
    put(&mut paths, "/scim/v2/Users", item2("get", op("List SCIM users (RFC 7644)", true, None, responses1("200", "OK")), "post", op("Create a SCIM user (auto-issues an API key)", true, None, responses2("201", "Created", "409", "userName already exists"))));
    put(&mut paths, "/scim/v2/Users/{id}", item3("delete", op("Delete a SCIM user (auto-revokes keys)", true, Some(params1("id")), responses1("204", "Deleted")), "get", op("Fetch a SCIM user", true, Some(params1("id")), responses1("200", "OK")), "put", op("Replace a SCIM user (deactivation auto-revokes keys)", true, Some(params1("id")), responses1("200", "OK"))));    paths
}

/// The OpenAPI document served at `GET /api/openapi.json`, for the server
/// version `version`.
pub fn openapi_document(version: &str) -> (r: JsonValue)
    ensures
        r.model() == openapi_model(version@),
{
    let mut key: Vec<(String, JsonValue)> = Vec::new();
    put(&mut key, "in", jstr("header"));
    put(&mut key, "name", jstr("X-Api-Key"));
    put(&mut key, "type", jstr("apiKey"));
    let mut schemes: Vec<(String, JsonValue)> = Vec::new();
    put(&mut schemes, "ApiKeyAuth", JsonValue::Object(key));
    let mut components: Vec<(String, JsonValue)> = Vec::new();
    put(&mut components, "securitySchemes", JsonValue::Object(schemes));
    let mut info: Vec<(String, JsonValue)> = Vec::new();
    put(&mut info, "description", jstr(INFO_DESCRIPTION));
    put(&mut info, "title", jstr("open-runo REST API"));
    put(&mut info, "version", jstr(version));
    let mut doc: Vec<(String, JsonValue)> = Vec::new();
    put(&mut doc, "components", JsonValue::Object(components));
    put(&mut doc, "info", JsonValue::Object(info));
    put(&mut doc, "openapi", jstr("3.0.3"));
    put(&mut doc, "paths", JsonValue::Object(paths()));
    JsonValue::Object(doc)
}

} // verus!
