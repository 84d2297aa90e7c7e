use serde_json::Value;
use sundial::encode::{compact_json_text, encode_settings, encode_settings_for_editor};
use sundial::json::{FloatNumber, JsonNumber, JsonValue};

fn to_doc(value: &Value) -> JsonValue {
    match value {
        Value::Null => JsonValue::Null,
        Value::Bool(b) => JsonValue::Bool(*b),
        Value::Number(n) => {
            if let Some(u) = n.as_u64() {
                JsonValue::Number(JsonNumber::PosInt(u))
            } else if let Some(i) = n.as_i64() {
                JsonValue::Number(JsonNumber::NegInt(i))
            } else {
                let f = n.as_f64().unwrap_or(f64::NAN);
                JsonValue::Number(JsonNumber::Float(FloatNumber {
                    text: n.to_string(),
                    finite_as_f32: (f as f32).is_finite(),
                }))
            }
        }
        Value::String(s) => JsonValue::String(s.clone()),
        Value::Array(a) => JsonValue::Array(a.iter().map(to_doc).collect()),
        Value::Object(o) => JsonValue::Object(
            o.iter().map(|(k, v)| (k.clone(), to_doc(v))).collect(),
        ),
    }
}

fn encode(text: &str) -> String {
    let value: Value = serde_json::from_str(text).unwrap();
    encode_settings(&to_doc(&value)).unwrap()
}

#[test]
fn objects_are_one_member_per_line_with_crlf() {
    assert_eq!(
        encode(r#"{"version": 6, "state": {"a": [1, -2, 0.5], "b": {}, "c": "x\"y"}}"#),
        "{\r\n  \"state\": {\r\n    \"a\": [1, -2, 0.5],\r\n    \"b\": {},\r\n    \"c\": \"x\\\"y\"\r\n  },\r\n  \"version\": 6\r\n}"
    );
}

#[test]
fn arrays_of_objects_are_one_row_per_line() {
    assert_eq!(
        encode(r#"{"list": [{"a": 1}, 2]}"#),
        "{\r\n  \"list\": [\r\n    {\r\n      \"a\": 1\r\n    },\r\n    2\r\n  ]\r\n}"
    );
    assert_eq!(
        encode(r#"{"server": {"entitlements": [{"a": 1, "b": [true, null]}]}}"#),
        "{\r\n  \"server\": {\r\n    \"entitlements\": [\r\n      { \"a\": 1, \"b\": [true, null] }\r\n    ]\r\n  }\r\n}"
    );
}

#[test]
fn long_scalar_arrays_wrap_one_item_per_line() {
    let items = (0..30).map(|i| (1000 + i).to_string()).collect::<Vec<_>>().join(", ");
    let encoded = encode(&format!(r#"{{"numbers": [{items}]}}"#));
    assert!(encoded.starts_with("{\r\n  \"numbers\": [\r\n    1000,\r\n    1001,\r\n"));
    assert!(encoded.ends_with("    1029\r\n  ]\r\n}"));
    assert_eq!(encode(r#"{"short": [1, 2, 3]}"#), "{\r\n  \"short\": [1, 2, 3]\r\n}");
}

#[test]
fn dense_tables_and_key_bindings_stay_compact() {
    assert_eq!(
        encode(r#"{"state": {"investment": {"t": [[1, 2], [3, 4], 5]}}}"#),
        "{\r\n  \"state\": {\r\n    \"investment\": {\r\n      \"t\": [[1,2], [3,4],5]\r\n    }\r\n  }\r\n}"
    );
    assert_eq!(
        encode(r#"{"state": {"account": {"settings": {"key_bindings": {"jump": {"key": 32, "alt": []}}}}}}"#),
        "{\r\n  \"state\": {\r\n    \"account\": {\r\n      \"settings\": {\r\n        \"key_bindings\": {\r\n          \"jump\": { \"alt\": [], \"key\": 32 }\r\n        }\r\n      }\r\n    }\r\n  }\r\n}"
    );
}

#[test]
fn old_schemas_write_profile_items_one_field_per_line() {
    assert_eq!(
        encode(r#"{"version": 3, "state": {"account": {"profile_items": [{"h": 1, "q": [2]}]}}}"#),
        "{\r\n  \"state\": {\r\n    \"account\": {\r\n      \"profile_items\": [\r\n      {\r\n      \"h\": 1,\r\n      \"q\": [2]\r\n      }\r\n      ]\r\n    }\r\n  },\r\n  \"version\": 3\r\n}"
    );
    assert_eq!(
        encode(r#"{"version": 6, "state": {"account": {"profile_items": [{"h": 1}]}}}"#),
        "{\r\n  \"state\": {\r\n    \"account\": {\r\n      \"profile_items\": [\r\n        {\r\n          \"h\": 1\r\n        }\r\n      ]\r\n    }\r\n  },\r\n  \"version\": 6\r\n}"
    );
}

#[test]
fn strings_are_quoted_as_serde_json_quotes_them() {
    let text = JsonValue::String("a\"\\\n\t\u{1}\u{7f}\u{e9}".to_owned());
    assert_eq!(compact_json_text(&text), "\"a\\\"\\\\\\n\\t\\u0001\u{7f}\u{e9}\"");
}

#[test]
fn every_line_feed_follows_a_carriage_return() {
    let value: Value = serde_json::from_str(r#"{"a": {"b": [1, 2], "c": "x\ny"}, "d": []}"#).unwrap();
    let text = encode_settings(&to_doc(&value)).unwrap();
    let bytes = text.as_bytes();
    assert!(bytes.contains(&b'\n'));
    for (i, byte) in bytes.iter().enumerate() {
        if *byte == b'\n' {
            assert!(i > 0 && bytes[i - 1] == b'\r');
        }
    }
}

#[test]
fn the_editor_shows_the_layout_with_plain_line_feeds() {
    let value: Value = serde_json::from_str(r#"{"version": 6, "state": {"a": [1, 2], "c": "x\r\ny"}}"#).unwrap();
    let text = encode_settings_for_editor(&to_doc(&value)).unwrap();
    assert_eq!(
        text,
        "{\n  \"state\": {\n    \"a\": [1, 2],\n    \"c\": \"x\\r\\ny\"\n  },\n  \"version\": 6\n}"
    );
    assert!(!text.contains('\r'));
}

fn without_layout(text: &str) -> String {
    let mut kept = String::new();
    let mut in_string = false;
    let mut after_backslash = false;
    for c in text.chars() {
        if in_string {
            kept.push(c);
            if after_backslash {
                after_backslash = false;
            } else if c == '\\' {
                after_backslash = true;
            } else if c == '"' {
                in_string = false;
            }
        } else if !matches!(c, ' ' | '\t' | '\n' | '\r') {
            kept.push(c);
            if c == '"' {
                in_string = true;
            }
        }
    }
    kept
}

#[test]
fn the_layout_adds_only_whitespace_to_the_compact_text() {
    let raw = r#"{"version": 3, "server": {"entitlements": [{"a": 1}]},
        "state": {"account": {"profile_items": [{"k": "x y", "n": -5}, {"k": "q\"\\"}],
        "settings": {"key_bindings": {"jump": {"key": "space bar"}}}},
        "investment": {"t": [[1, 2], [3, 4]]}, "s": "tab\there", "f": 0.25, "e": []}}"#;
    let value: Value = serde_json::from_str(raw).unwrap();
    let document = to_doc(&value);
    let written = encode_settings(&document).unwrap();
    assert!(written.contains("\r\n"));
    assert_eq!(without_layout(&written), compact_json_text(&document));
    assert_eq!(compact_json_text(&document), serde_json::to_string(&value).unwrap());
    let read_back: Value = serde_json::from_str(&written).unwrap();
    assert_eq!(read_back, value);
}

#[test]
fn setting_and_removing_members_keeps_names_sorted() {
    use_members();
}

fn use_members() {
    let mut members: Vec<(String, JsonValue)> = vec![
        ("alpha".to_owned(), JsonValue::Null),
        ("gamma".to_owned(), JsonValue::Bool(true)),
    ];
    sundial::json::set_member_exec(&mut members, "beta", JsonValue::Bool(false));
    sundial::json::set_member_exec(&mut members, "zeta", JsonValue::Null);
    sundial::json::set_member_exec(&mut members, "alpha", JsonValue::Bool(true));
    let names: Vec<&str> = members.iter().map(|(name, _)| name.as_str()).collect();
    assert_eq!(names, vec!["alpha", "beta", "gamma", "zeta"]);
    assert!(matches!(members[0].1, JsonValue::Bool(true)));
    sundial::json::remove_member_exec(&mut members, "gamma");
    let names: Vec<&str> = members.iter().map(|(name, _)| name.as_str()).collect();
    assert_eq!(names, vec!["alpha", "beta", "zeta"]);
}
