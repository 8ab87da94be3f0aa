//! JSON Schema validation of request bodies: `jsonschema` lists what is
//! wrong with a body, and a failed body becomes one readable message for a
//! `422` answer.
use vstd::prelude::*;

verus! {

/// The schema of `POST /api/schemas` request bodies.
pub const REGISTER_SCHEMA_REQUEST: &'static str = "{\"type\":\"object\",\"required\":[\"service_name\",\"sdl\"],\"properties\":{\"service_name\":{\"type\":\"string\",\"minLength\":1},\"sdl\":{\"type\":\"string\",\"minLength\":1},\"stage\":{\"type\":\"string\"}}}";

/// The schema of `PUT /api/db/:table/:key` request bodies.
pub const DB_UPSERT_REQUEST: &'static str = "{\"type\":\"object\",\"required\":[\"value\"]}";

/// The schema of `POST /api/feature-flags` request bodies.
pub const FEATURE_FLAG_REQUEST: &'static str = "{\"type\":\"object\",\"required\":[\"name\"],\"properties\":{\"name\":{\"type\":\"string\",\"minLength\":1},\"enabled\":{\"type\":\"boolean\"},\"rollout_percent\":{\"type\":\"integer\",\"minimum\":0,\"maximum\":100},\"description\":{\"type\":\"string\"}}}";

/// A name for what `jsonschema` reports of the JSON text `body` against
/// the JSON Schema text `schema`: the violations (message, location in
/// the body), none when the body is valid; `None` when either text is not
/// JSON or the schema does not compile. It depends on the two texts alone.
pub uninterp spec fn schema_errors(schema: Seq<char>, body: Seq<char>) -> Option<Seq<(Seq<char>, Seq<char>)>>;

/// `serde_json::from_str` of both texts, `JSONSchema::compile` of the
/// schema, then `JSONSchema::validate` of the body: each violation as the
/// error's message (its `Display`) and where in the body it is (the
/// `Display` of its `instance_path`); none when `validate` answers `Ok`
/// (its `Err` always holds at least one error).
#[verifier::external_body]
fn schema_violations(schema: &str, body: &str) -> (r: Option<Vec<(String, String)>>)
    ensures
        match schema_errors(schema@, body@) {
            Some(vs) => r matches Some(v) && violation_models(v@) == vs,
            None => r is None,
        },
{
    let schema: serde_json::Value = serde_json::from_str(schema).ok()?;
    let compiled = jsonschema::JSONSchema::compile(&schema).ok()?;
    let body: serde_json::Value = serde_json::from_str(body).ok()?;
    let out = match compiled.validate(&body) {
        Ok(()) => Vec::new(),
        Err(errors) => errors.map(|e| (e.to_string(), e.instance_path.to_string())).collect(),
    };
    Some(out)
}

/// One violation as it is reported: the message, then its location.
pub open spec fn violation_text(v: (Seq<char>, Seq<char>)) -> Seq<char> {
    v.0 + " (at "@ + v.1 + ")"@
}

/// The violations' texts, joined with `; `.
pub open spec fn violations_text(vs: Seq<(Seq<char>, Seq<char>)>) -> Seq<char>
    decreases vs.len(),
{
    if vs.len() == 0 {
        Seq::empty()
    } else if vs.len() == 1 {
        violation_text(vs[0])
    } else {
        violations_text(vs.drop_last()) + "; "@ + violation_text(vs.last())
    }
}

/// What a list of violations answers: `Ok` for none, else the message
/// listing them.
pub open spec fn outcome(vs: Seq<(Seq<char>, Seq<char>)>) -> Result<(), Seq<char>> {
    if vs.len() == 0 {
        Ok(())
    } else {
        Err("request body failed validation: "@ + violations_text(vs))
    }
}

pub open spec fn violation_models(s: Seq<(String, String)>) -> Seq<(Seq<char>, Seq<char>)> {
    s.map_values(|v: (String, String)| (v.0@, v.1@))
}

pub open spec fn result_model(r: Result<(), String>) -> Result<(), Seq<char>> {
    match r {
        Ok(()) => Ok(()),
        Err(m) => Err(m@),
    }
}

/// The answer for `violations` (message, location) found in a body.
pub fn validation_outcome(violations: &Vec<(String, String)>) -> (r: Result<(), String>)
    ensures
        result_model(r) == outcome(violation_models(violations@)),
{
    let n = violations.len();
    if n == 0 {
        return Ok(());
    }
    let ghost vs = violation_models(violations@);
    let mut text = "request body failed validation: ".to_owned();
    let ghost prefix = text@;
    let mut i: usize = 0;
    while i < n
        invariant
            n == violations@.len(),
            vs == violation_models(violations@),
            0 <= i <= n,
            text@ == prefix + violations_text(vs.subrange(0, i as int)),
        decreases n - i,
    {
        let ghost before = text@;
        if i > 0 {
            text.append("; ");
        }
        text.append(violations[i].0.as_str());
        text.append(" (at ");
        text.append(violations[i].1.as_str());
        text.append(")");
        proof {
            let sub = vs.subrange(0, i + 1);
            assert(sub.drop_last() =~= vs.subrange(0, i as int));
            assert(sub.last() == vs[i as int]);
            assert(vs[i as int] == (violations@[i as int].0@, violations@[i as int].1@));
            if i == 0 {
                assert(vs.subrange(0, 0) =~= Seq::<(Seq<char>, Seq<char>)>::empty());
                assert(text@ =~= prefix + violation_text(vs[0]));
            } else {
                assert(text@ =~= prefix + (violations_text(vs.subrange(0, i as int)) + "; "@ + violation_text(
                    vs[i as int],
                )));
            }
        }
        i = i + 1;
    }
    assert(vs.subrange(0, n as int) =~= vs);
    Err(text)
}

/// The message for a schema or body that is not JSON, or a schema that
/// does not compile.
pub open spec fn invalid_input_text() -> Seq<char> {
    "request body failed validation: invalid JSON schema or body"@
}

/// What validating the JSON text `body` against the schema text `schema`
/// answers.
pub open spec fn validation_result(schema: Seq<char>, body: Seq<char>) -> Result<(), Seq<char>> {
    match schema_errors(schema, body) {
        Some(vs) => outcome(vs),
        None => Err(invalid_input_text()),
    }
}

/// Validates the JSON text `body` against the JSON Schema text `schema`:
/// `Ok`, or the message listing the violations `jsonschema` found (see
/// [`validation_outcome`]).
pub fn validate(schema: &str, body: &str) -> (r: Result<(), String>)
    ensures
        result_model(r) == validation_result(schema@, body@),
{
    match schema_violations(schema, body) {
        Some(violations) => validation_outcome(&violations),
        None => Err("request body failed validation: invalid JSON schema or body".to_owned()),
    }
}

} // verus!
