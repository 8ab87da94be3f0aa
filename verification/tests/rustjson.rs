use open_runo::rustjson::{extract_path, parse, to_string, JsonNumber, JsonValue, RustJsonError};
use serde_json::Value;

/// The parsed tree as a `serde_json::Value`, for comparison with strict JSON.
fn to_serde(v: &JsonValue) -> Value {
    match v {
        JsonValue::Null => Value::Null,
        JsonValue::Bool(b) => Value::Bool(*b),
        JsonValue::Number(JsonNumber::Int(i)) => Value::from(*i),
        JsonValue::Number(JsonNumber::UInt(u)) => Value::from(*u),
        JsonValue::Number(JsonNumber::Float(t)) => Value::from(t.parse::<f64>().unwrap()),
        JsonValue::String(s) => Value::String(s.clone()),
        JsonValue::Array(items) => Value::Array(items.iter().map(to_serde).collect()),
        JsonValue::Object(members) => {
            let mut m = serde_json::Map::new();
            for (k, v) in members {
                m.insert(k.clone(), to_serde(v));
            }
            Value::Object(m)
        }
    }
}

fn strict(text: &str) -> Value {
    serde_json::from_str(text).unwrap()
}

#[test]
fn parses_strict_json_unchanged() {
    let input = r#"{"a": 1, "b": [true, false, null], "c": "hello"}"#;
    assert_eq!(to_serde(&parse(input).unwrap()), strict(r#"{"a": 1, "b": [true, false, null], "c": "hello"}"#));
}

#[test]
fn trailing_comma_in_object_is_accepted() {
    assert_eq!(to_serde(&parse(r#"{"a": 1,}"#).unwrap()), strict(r#"{"a": 1}"#));
}

#[test]
fn trailing_comma_in_array_is_accepted() {
    assert_eq!(to_serde(&parse("[1, 2, 3,]").unwrap()), strict("[1, 2, 3]"));
}

#[test]
fn line_comments_are_skipped() {
    let input = "{\n  // this is the quantity\n  \"qty\": 5\n}";
    assert_eq!(to_serde(&parse(input).unwrap()), strict(r#"{"qty": 5}"#));
}

#[test]
fn block_comments_are_skipped() {
    let input = r#"{ "a": /* inline note */ 1 }"#;
    assert_eq!(to_serde(&parse(input).unwrap()), strict(r#"{"a": 1}"#));
}

#[test]
fn unquoted_identifier_keys_are_accepted() {
    assert_eq!(to_serde(&parse("{name: 'sword', qty: 3}").unwrap()), strict(r#"{"name": "sword", "qty": 3}"#));
}

#[test]
fn single_quoted_strings_are_accepted() {
    assert_eq!(to_serde(&parse("['a', 'b']").unwrap()), strict(r#"["a", "b"]"#));
}

#[test]
fn nested_structures_with_all_extensions_combined() {
    let input = r#"
        {
            // top-level comment
            name: 'longsword',
            stats: {
                damage: 12,
                bonuses: [1, 2, 3,], // trailing comma
            },
        }
        "#;
    assert_eq!(
        to_serde(&parse(input).unwrap()),
        strict(r#"{"name": "longsword", "stats": {"damage": 12, "bonuses": [1, 2, 3]}}"#)
    );
}

#[test]
fn escape_sequences_in_strings_round_trip() {
    assert_eq!(to_serde(&parse(r#""line1\nline2\ttab""#).unwrap()), Value::String("line1\nline2\ttab".to_string()));
}

#[test]
fn unicode_escape_is_decoded() {
    assert_eq!(to_serde(&parse(r#""\u00e9""#).unwrap()), Value::String("\u{e9}".to_string()));
    assert_eq!(to_serde(&parse(r#""é""#).unwrap()), Value::String("\u{e9}".to_string()));
}

#[test]
fn non_ascii_content_is_preserved() {
    assert_eq!(to_serde(&parse(r#""こんにちは""#).unwrap()), Value::String("こんにちは".to_string()));
}

#[test]
fn unterminated_string_is_an_error() {
    assert!(matches!(parse(r#""unterminated"#), Err(RustJsonError::UnterminatedString(_))));
}

#[test]
fn unterminated_block_comment_is_an_error() {
    assert!(matches!(parse("{ /* never closed"), Err(RustJsonError::UnterminatedComment(_))));
}

#[test]
fn invalid_key_without_quotes_or_identifier_shape_is_an_error() {
    assert!(parse("{123abc: 1}").is_err());
}

#[test]
fn trailing_data_after_top_level_value_is_an_error() {
    assert!(matches!(parse("{} garbage"), Err(RustJsonError::TrailingData(_))));
}

#[test]
fn to_string_produces_strict_json_regardless_of_how_lenient_the_source_was() {
    let value = parse("{name: 'sword', qty: 3,}").unwrap();
    let canonical = to_string(&value);
    let reparsed: Value = serde_json::from_str(&canonical).unwrap();
    assert_eq!(reparsed, to_serde(&value));
    assert!(!canonical.contains("//"), "canonical output must not carry comments through");
}

#[test]
fn numbers_including_negative_fraction_and_exponent() {
    assert_eq!(to_serde(&parse("-3.5e2").unwrap()), Value::from(-350.0));
}

#[test]
fn extract_path_empty_returns_whole_value() {
    let value = parse(r#"{"a": 1}"#).unwrap();
    assert_eq!(extract_path(&value, ""), Some(&value));
}

#[test]
fn extract_path_single_key() {
    let value = parse(r#"{"name": "sword", "qty": 3}"#).unwrap();
    assert_eq!(extract_path(&value, "name").map(to_serde), Some(strict(r#""sword""#)));
}

#[test]
fn extract_path_nested_keys() {
    let value = parse(r#"{"stats": {"damage": 12, "weight": 4}}"#).unwrap();
    assert_eq!(extract_path(&value, "stats.damage").map(to_serde), Some(strict("12")));
}

#[test]
fn extract_path_array_index() {
    let value = parse(r#"{"bonuses": [10, 20, 30]}"#).unwrap();
    assert_eq!(extract_path(&value, "bonuses[1]").map(to_serde), Some(strict("20")));
}

#[test]
fn extract_path_combined_key_and_index() {
    let value = parse(r#"{"items": [{"name": "sword"}, {"name": "shield"}]}"#).unwrap();
    assert_eq!(extract_path(&value, "items[1].name").map(to_serde), Some(strict(r#""shield""#)));
}

#[test]
fn extract_path_missing_key_returns_none() {
    let value = parse(r#"{"a": 1}"#).unwrap();
    assert_eq!(extract_path(&value, "b"), None);
}

#[test]
fn extract_path_out_of_bounds_index_returns_none() {
    let value = parse(r#"{"bonuses": [1, 2]}"#).unwrap();
    assert_eq!(extract_path(&value, "bonuses[5]"), None);
}

#[test]
fn extract_path_indexing_into_non_array_returns_none() {
    let value = parse(r#"{"name": "sword"}"#).unwrap();
    assert_eq!(extract_path(&value, "name[0]"), None);
}

#[test]
fn repeated_key_keeps_first_position_with_last_value() {
    let value = parse(r#"{"a": 1, "b": 2, "a": 3}"#).unwrap();
    assert_eq!(to_string(&value), r#"{"a":3,"b":2}"#);
}

#[test]
fn to_string_escapes_control_characters() {
    let value = parse(r#""a\u0001b\"""#).unwrap();
    assert_eq!(to_string(&value), r#""a\u0001b\"""#);
}

#[test]
fn unexpected_end_of_input_is_reported() {
    assert!(matches!(parse("[1, 2"), Err(RustJsonError::UnexpectedEof(_))));
    assert!(matches!(parse("@"), Err(RustJsonError::UnexpectedChar(0, '@'))));
}

#[test]
fn bad_escape_and_bad_number_are_reported() {
    assert!(matches!(parse(r#""\q""#), Err(RustJsonError::InvalidEscape(_))));
    assert!(matches!(parse("-x"), Err(RustJsonError::InvalidNumber(_)) | Err(RustJsonError::UnexpectedChar(..))));
}

#[test]
fn large_integers_keep_their_type() {
    let value = parse("18446744073709551615").unwrap();
    assert_eq!(value, JsonValue::Number(JsonNumber::UInt(18446744073709551615)));
    assert_eq!(to_string(&parse("-12").unwrap()), "-12");
}

#[test]
fn written_text_parses_back_to_the_same_value() {
    let value = JsonValue::Object(vec![
        (
            "items".to_string(),
            JsonValue::Array(vec![
                JsonValue::Null,
                JsonValue::Bool(true),
                JsonValue::Bool(false),
                JsonValue::Number(JsonNumber::Int(-42)),
                JsonValue::Number(JsonNumber::UInt(18446744073709551615)),
                JsonValue::Number(JsonNumber::Float("-350.0".to_string())),
                JsonValue::Array(vec![]),
                JsonValue::Object(vec![]),
            ]),
        ),
        ("name".to_string(), JsonValue::String("tab\there \"q\" é\u{1}".to_string())),
    ]);
    let text = to_string(&value);
    assert_eq!(parse(&text).unwrap(), value);
}

#[test]
fn float_literals_are_written_as_the_nearest_double() {
    assert_eq!(to_string(&parse("-3.5e2").unwrap()), "-350.0");
    assert_eq!(to_string(&parse("1.50").unwrap()), "1.5");
    assert_eq!(parse("1.50").unwrap(), parse("1.5").unwrap());
    let big = serde_json::Number::from_f64(18446744073709551616.0).unwrap().to_string();
    assert_eq!(parse("18446744073709551616").unwrap(), JsonValue::Number(JsonNumber::Float(big)));
    assert!(matches!(parse("1e400"), Err(RustJsonError::InvalidNumber(0))));
}

#[test]
fn errors_are_reported_with_their_byte_offsets() {
    assert_eq!(parse("@").unwrap_err().message(), "unexpected character '@' at byte 0");
    assert_eq!(parse("\"abc").unwrap_err().message(), "unterminated string starting at byte 0");
    assert_eq!(parse("[1, 2] x").unwrap_err().message(), "trailing data after the top-level value, starting at byte 7");
    assert_eq!(RustJsonError::UnexpectedEof(12).message(), "unexpected end of input at byte 12");
}

#[test]
fn a_dotted_path_resolves_part_by_part() {
    let v = parse(r#"{"a": {"b": [10, {"c": true}]}, "x": 1}"#).unwrap();
    for (p, q) in [("a", "b[1].c"), ("a.b", "[1].c"), ("a.b[1]", "c"), ("", "a"), ("x", "y"), ("nope", "b")] {
        let whole = extract_path(&v, &format!("{p}.{q}"));
        let stepwise = extract_path(&v, p).and_then(|u| extract_path(u, q));
        assert_eq!(whole, stepwise, "{p}.{q}");
    }
    assert_eq!(extract_path(&v, "a.b[1].c"), Some(&JsonValue::Bool(true)));
}

#[test]
fn surrogate_pair_escape_is_one_character() {
    let v = parse(r#""\ud83d\ude00""#).unwrap();
    assert_eq!(v, JsonValue::String("\u{1F600}".to_string()));
    let v = parse(r#"'a\uD834\uDD1Eb'"#).unwrap();
    assert_eq!(v, JsonValue::String("a\u{1D11E}b".to_string()));
}

#[test]
fn lone_surrogate_escapes_are_rejected() {
    assert_eq!(parse(r#""\ud83d""#), Err(RustJsonError::InvalidEscape(2)));
    assert_eq!(parse(r#""\ude00""#), Err(RustJsonError::InvalidEscape(2)));
    assert_eq!(parse(r#""x\ud83d\u0041""#), Err(RustJsonError::InvalidEscape(3)));
    assert_eq!(parse(r#""\ud83d\ud83d""#), Err(RustJsonError::InvalidEscape(2)));
}

#[test]
fn strict_texts_read_as_serde_json_reads_them() {
    let texts = [
        r#"{"emoji": "\ud83d\ude00", "clef": "\uD834\uDD1E", "plain": "\u00e9\n\t\/"}"#,
        "[1, -2, 0, 3.5, -0.25e-3, 1E+2, 18446744073709551615, -9223372036854775808]",
        " \t\r\n{ \"a\" : [ ] , \"b\" : { } , \"c\" : [ null , true , false ] } \n",
        r#"{"a": 1, "a": 2}"#,
        r#""just a string""#,
        "12345678901234567890123",
    ];
    for text in texts {
        let ours = parse(text).unwrap();
        assert_eq!(to_serde(&ours), strict(text), "{}", text);
    }
}

#[test]
fn written_text_is_strict_json_for_serde_json_too() {
    let value = JsonValue::Object(vec![
        ("k\u{7f}\u{1F600}".to_string(), JsonValue::String("\u{0}\u{1f}\\/\"\u{8}\u{c}\n\r\t".to_string())),
        ("n".to_string(), JsonValue::Array(vec![
            JsonValue::Number(JsonNumber::Int(0)),
            JsonValue::Number(JsonNumber::Int(i64::MIN)),
            JsonValue::Number(JsonNumber::Float("0.5".to_string())),
            JsonValue::Number(JsonNumber::Float("1e+300".to_string())),
        ])),
    ]);
    let text = to_string(&value);
    let strict_reading: Value = serde_json::from_str(&text).unwrap();
    assert_eq!(strict_reading, to_serde(&value));
    assert_eq!(parse(&text).unwrap(), value);
}

#[test]
fn object_members_come_out_in_key_order_as_serde_json_keeps_them() {
    let value = parse("{b: 1, a: 2, 'ä': 3, Z: 4, ab: 5, b: 6}").unwrap();
    assert_eq!(to_string(&value), r#"{"Z":4,"a":2,"ab":5,"b":6,"ä":3}"#);
    let reference: Value = serde_json::from_str(r#"{"b": 1, "a": 2, "ä": 3, "Z": 4, "ab": 5, "b": 6}"#).unwrap();
    assert_eq!(serde_json::to_string(&reference).unwrap(), to_string(&value));
}
