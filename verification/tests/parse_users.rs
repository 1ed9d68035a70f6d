use serde_json::Value;
use wikiwho::json::{JsonField, JsonValue};
use wikiwho::mwclient::users::parse_users_response;
use wikiwho::mwclient::MwError;

fn own(v: &Value) -> JsonValue {
    match v {
        Value::Null => JsonValue::Null,
        Value::Bool(b) => JsonValue::Bool(*b),
        Value::Number(n) => {
            if let Some(u) = n.as_u64() {
                JsonValue::Unsigned(u as u128)
            } else if let Some(i) = n.as_i64() {
                JsonValue::Negative(i)
            } else {
                JsonValue::Real(n.to_string())
            }
        }
        Value::String(s) => JsonValue::Text(s.clone()),
        Value::Array(items) => JsonValue::Array(items.iter().map(own).collect()),
        Value::Object(fields) => JsonValue::Object(
            fields
                .iter()
                .map(|(name, value)| JsonField {
                    name: name.clone(),
                    value: own(value),
                })
                .collect(),
        ),
    }
}

fn json(text: &str) -> JsonValue {
    own(&serde_json::from_str(text).unwrap())
}

#[test]
fn typical_users_parses_id_name_pairs() {
    let body = json(r#"{
        "batchcomplete": true,
        "query": {
            "users": [
                {"userid": 1465, "name": "Froderik"},
                {"userid": 5959, "name": "Valery Beaud"}
            ]
        }
    }"#);
    let out = parse_users_response(&body).unwrap();
    assert_eq!(out, vec![(1465, "Froderik".into()), (5959, "Valery Beaud".into())]);
}

#[test]
fn missing_users_are_silently_skipped() {
    let body = json(r#"{
        "query": {
            "users": [
                {"userid": 1465, "name": "Froderik"},
                {"userid": 9999999999, "missing": true},
                {"userid": 5959, "name": "Valery Beaud"}
            ]
        }
    }"#);
    let out = parse_users_response(&body).unwrap();
    assert_eq!(out.len(), 2);
    assert_eq!(out[0].0, 1465);
    assert_eq!(out[1].0, 5959);
}

#[test]
fn users_without_name_are_skipped() {
    let body = json(r#"{
        "query": {
            "users": [
                {"userid": 1, "name": "A"},
                {"userid": 2}
            ]
        }
    }"#);
    let out = parse_users_response(&body).unwrap();
    assert_eq!(out, vec![(1, "A".into())]);
}

#[test]
fn body_without_query_users_errors_as_shape() {
    let body = json(r#"{"batchcomplete": true}"#);
    let err = parse_users_response(&body).unwrap_err();
    assert!(matches!(err, MwError::Shape(_)));
}

#[test]
fn empty_users_returns_empty_vec() {
    let body = json(r#"{"query": {"users": []}}"#);
    let out = parse_users_response(&body).unwrap();
    assert!(out.is_empty());
}
