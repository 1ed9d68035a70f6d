use serde_json::Value;
use wikiwho::json::{JsonField, JsonValue};
use wikiwho::mwclient::revisions::parse_revision;

fn own(v: &Value) -> JsonValue {
    match v {
        Value::Null => JsonValue::Null,
        Value::Bool(b) => JsonValue::Bool(*b),
        Value::Number(n) => {
            if let Some(u) = n.as_u64() {
                JsonValue::Unsigned(u as u128)
            } else if let Some(i) = n.as_i64() {
                JsonValue::Negative(i)
            } else {
                JsonValue::Real(n.to_string())
            }
        }
        Value::String(s) => JsonValue::Text(s.clone()),
        Value::Array(items) => JsonValue::Array(items.iter().map(own).collect()),
        Value::Object(fields) => JsonValue::Object(
            fields
                .iter()
                .map(|(name, value)| JsonField {
                    name: name.clone(),
                    value: own(value),
                })
                .collect(),
        ),
    }
}

fn json(text: &str) -> JsonValue {
    own(&serde_json::from_str(text).unwrap())
}

#[test]
fn fv2_typical_revision() {
    let rev = json(r#"{
        "revid": 1083758908,
        "parentid": 1083000000,
        "user": "Sichoon",
        "userid": 33041991,
        "timestamp": "2022-04-20T14:42:55Z",
        "minor": false,
        "sha1": "fe56f6f3045d118355c235071be9b63431172ec1",
        "comment": "describing an organocatalyst",
        "slots": {"main": {"contentmodel": "wikitext", "content": "Hello world."}}
    }"#);
    let r = parse_revision(&rev).unwrap();
    assert_eq!(r.rev_id, 1083758908);
    assert_eq!(r.parent_id, 1083000000);
    assert_eq!(r.user_name.as_deref(), Some("Sichoon"));
    assert_eq!(r.user_id, Some(33041991));
    assert!(!r.minor);
    assert_eq!(r.text, "Hello world.");
    assert!(!r.text_hidden);
    assert_eq!(r.sha1.as_deref(), Some("fe56f6f3045d118355c235071be9b63431172ec1"));
}

#[test]
fn fv2_first_revision_has_no_parentid() {
    let rev = json(r#"{
        "revid": 17942981,
        "timestamp": "2011-10-05T06:35:56Z",
        "minor": true,
        "slots": {"main": {"content": "Hello"}}
    }"#);
    let r = parse_revision(&rev).unwrap();
    assert_eq!(r.parent_id, 0);
    assert!(r.minor);
}

#[test]
fn texthidden_yields_empty_text() {
    let rev = json(r#"{
        "revid": 999,
        "parentid": 998,
        "timestamp": "2024-01-01T00:00:00Z",
        "minor": false,
        "slots": {"main": {"texthidden": true}}
    }"#);
    let r = parse_revision(&rev).unwrap();
    assert!(r.text_hidden);
    assert_eq!(r.text, "");
}

#[test]
fn userhidden_nullifies_user_fields() {
    let rev = json(r#"{
        "revid": 1000,
        "parentid": 0,
        "timestamp": "2024-01-01T00:00:00Z",
        "minor": false,
        "userhidden": "",
        "user": "redacted",
        "userid": 0,
        "slots": {"main": {"content": "x"}}
    }"#);
    let r = parse_revision(&rev).unwrap();
    assert_eq!(r.user_id, None);
    assert_eq!(r.user_name, None);
}

#[test]
fn commenthidden_nullifies_comment() {
    let rev = json(r#"{
        "revid": 1001,
        "parentid": 0,
        "timestamp": "2024-01-01T00:00:00Z",
        "minor": false,
        "commenthidden": "",
        "comment": "redacted",
        "slots": {"main": {"content": "x"}}
    }"#);
    let r = parse_revision(&rev).unwrap();
    assert_eq!(r.comment, None);
}

#[test]
fn suppressed_implies_text_hidden_and_comment_hidden() {
    let rev = json(r#"{
        "revid": 1002,
        "parentid": 0,
        "timestamp": "2024-01-01T00:00:00Z",
        "minor": false,
        "suppressed": "",
        "slots": {"main": {"content": "should-not-leak"}}
    }"#);
    let r = parse_revision(&rev).unwrap();
    assert!(r.text_hidden);
    assert_eq!(r.text, "");
    assert_eq!(r.comment, None);
}

#[test]
fn legacy_star_field_falls_back_when_no_slots() {
    let rev = json(r#"{
        "revid": 1003,
        "parentid": 1002,
        "timestamp": "2010-01-01T00:00:00Z",
        "minor": false,
        "*": "legacy text"
    }"#);
    let r = parse_revision(&rev).unwrap();
    assert_eq!(r.text, "legacy text");
    assert!(!r.text_hidden);
}
