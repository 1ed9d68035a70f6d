use serde_json::Value;
use wikiwho::json::{JsonField, JsonValue};
use wikiwho::mwclient::info::parse_page_info;
use wikiwho::mwclient::MwError;

fn own(v: &Value) -> JsonValue {
    match v {
        Value::Null => JsonValue::Null,
        Value::Bool(b) => JsonValue::Bool(*b),
        Value::Number(n) => {
            if let Some(u) = n.as_u64() {
                JsonValue::Unsigned(u as u128)
            } else if let Some(i) = n.as_i64() {
                JsonValue::Negative(i)
            } else {
                JsonValue::Real(n.to_string())
            }
        }
        Value::String(s) => JsonValue::Text(s.clone()),
        Value::Array(items) => JsonValue::Array(items.iter().map(own).collect()),
        Value::Object(fields) => JsonValue::Object(
            fields
                .iter()
                .map(|(name, value)| JsonField {
                    name: name.clone(),
                    value: own(value),
                })
                .collect(),
        ),
    }
}

fn json(text: &str) -> JsonValue {
    own(&serde_json::from_str(text).unwrap())
}

#[test]
fn typical_page_parses_to_page_info() {
    let body = json(r#"{
        "batchcomplete": true,
        "query": {
            "pages": [{
                "pageid": 24544,
                "ns": 0,
                "title": "Photosynthesis",
                "contentmodel": "wikitext",
                "pagelanguage": "en",
                "touched": "2024-01-01T00:00:00Z",
                "lastrevid": 1099999999,
                "length": 100000
            }]
        }
    }"#);
    let info = parse_page_info(&body).unwrap();
    assert_eq!(info.page_id, 24544);
    assert_eq!(info.title, "Photosynthesis");
    assert_eq!(info.last_revid, 1099999999);
}

#[test]
fn normalized_title_echoes_canonical_form() {
    let body = json(r#"{
        "query": {
            "normalized": [{"from": "photosynthesis", "to": "Photosynthesis"}],
            "pages": [{
                "pageid": 24544,
                "title": "Photosynthesis",
                "lastrevid": 1099999999
            }]
        }
    }"#);
    let info = parse_page_info(&body).unwrap();
    assert_eq!(info.title, "Photosynthesis");
}

#[test]
fn missing_page_errors_with_page_missing() {
    let body = json(r#"{
        "query": {
            "pages": [{
                "ns": 0,
                "title": "Nonexistent_Article_Title_XYZ",
                "missing": true
            }]
        }
    }"#);
    let err = parse_page_info(&body).unwrap_err();
    assert!(matches!(err, MwError::PageMissing { .. }));
}

#[test]
fn invalid_title_errors_with_page_missing() {
    let body = json(r#"{
        "query": {
            "pages": [{
                "title": "?",
                "invalidreason": "The requested page title is empty or contains only a namespace prefix.",
                "invalid": true
            }]
        }
    }"#);
    let err = parse_page_info(&body).unwrap_err();
    assert!(matches!(err, MwError::PageMissing { .. }));
}

#[test]
fn missing_page_with_pageid_in_response_surfaces_it() {
    let body = json(r#"{
        "query": {
            "pages": [{
                "pageid": 9999999999,
                "missing": true
            }]
        }
    }"#);
    match parse_page_info(&body).unwrap_err() {
        MwError::PageMissing { page_id } => assert_eq!(page_id, 9_999_999_999),
        other => panic!("expected PageMissing, got {other:?}"),
    }
}

#[test]
fn revids_query_with_bad_revid_returns_page_missing() {
    let body = json(r#"{
        "batchcomplete": true,
        "query": {
            "badrevids": {
                "9999999999": {
                    "revid": 9999999999,
                    "missing": true
                }
            }
        }
    }"#);
    match parse_page_info(&body).unwrap_err() {
        MwError::PageMissing { page_id } => assert_eq!(page_id, 0),
        other => panic!("expected PageMissing, got {other:?}"),
    }
}

#[test]
fn revids_query_with_known_revid_parses_like_titles() {
    let body = json(r#"{
        "batchcomplete": true,
        "query": {
            "pages": [{
                "pageid": 27263,
                "ns": 0,
                "title": "Wikipedia",
                "lastrevid": 10855732,
                "length": 17130
            }]
        }
    }"#);
    let info = parse_page_info(&body).unwrap();
    assert_eq!(info.page_id, 27263);
    assert_eq!(info.title, "Wikipedia");
    assert_eq!(info.last_revid, 10_855_732);
}

#[test]
fn body_without_query_errors_as_shape() {
    let body = json(r#"{"batchcomplete": true}"#);
    let err = parse_page_info(&body).unwrap_err();
    assert!(matches!(err, MwError::Shape(_)));
}

#[test]
fn body_with_empty_pages_errors_as_shape() {
    let body = json(r#"{"query": {"pages": []}}"#);
    let err = parse_page_info(&body).unwrap_err();
    assert!(matches!(err, MwError::Shape(_)));
}

#[test]
fn page_missing_lastrevid_errors_as_shape() {
    let body = json(r#"{
        "query": {
            "pages": [{"pageid": 1, "title": "X"}]
        }
    }"#);
    let err = parse_page_info(&body).unwrap_err();
    assert!(matches!(err, MwError::Shape(_)));
}

#[test]
fn page_missing_title_errors_as_shape() {
    let body = json(r#"{
        "query": {
            "pages": [{"pageid": 1, "lastrevid": 2}]
        }
    }"#);
    let err = parse_page_info(&body).unwrap_err();
    assert!(matches!(err, MwError::Shape(_)));
}

#[test]
fn page_missing_pageid_errors_as_shape() {
    let body = json(r#"{
        "query": {
            "pages": [{"title": "X", "lastrevid": 2}]
        }
    }"#);
    let err = parse_page_info(&body).unwrap_err();
    assert!(matches!(err, MwError::Shape(_)));
}
