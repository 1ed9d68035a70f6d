use serde_json::Value;
use wikiwho::json::{JsonField, JsonValue};
use std::collections::HashMap;
use wikiwho::mwclient::revisions::{parse_source, source_params};
use wikiwho::mwclient::users::{learn_names, user_batches, users_params};
use wikiwho::mwclient::{
    accept_body, render_params, rendered_html, HttpEvent, MwClientBuilder, MwError, RetryAction, RetryState,
};

fn own(v: &Value) -> JsonValue {
    match v {
        Value::Null => JsonValue::Null,
        Value::Bool(b) => JsonValue::Bool(*b),
        Value::Number(n) => {
            if let Some(u) = n.as_u64() {
                JsonValue::Unsigned(u as u128)
            } else if let Some(i) = n.as_i64() {
                JsonValue::Negative(i)
            } else {
                JsonValue::Real(n.to_string())
            }
        }
        Value::String(s) => JsonValue::Text(s.clone()),
        Value::Array(items) => JsonValue::Array(items.iter().map(own).collect()),
        Value::Object(fields) => JsonValue::Object(
            fields
                .iter()
                .map(|(name, value)| JsonField {
                    name: name.clone(),
                    value: own(value),
                })
                .collect(),
        ),
    }
}

fn json(text: &str) -> JsonValue {
    own(&serde_json::from_str(text).unwrap())
}

fn answer(db: &HashMap<u64, String>, ids: &[u64]) -> JsonValue {
    let users: Vec<String> = ids
        .iter()
        .map(|id| match db.get(id) {
            Some(name) => format!("{{\"userid\": {id}, \"name\": \"{name}\"}}"),
            None => format!("{{\"userid\": {id}, \"missing\": true}}"),
        })
        .collect();
    json(&format!(
        "{{\"batchcomplete\": true, \"query\": {{\"users\": [{}]}}}}",
        users.join(", ")
    ))
}

fn resolve(db: &HashMap<u64, String>, ids: &[u64]) -> (HashMap<u64, String>, Vec<Vec<u64>>) {
    let mut names = HashMap::new();
    let batches = user_batches(ids);
    for batch in &batches {
        let body = accept_body(answer(db, batch)).unwrap();
        learn_names(&mut names, &body).unwrap();
    }
    (names, batches)
}

#[test]
fn resolve_users_returns_id_to_name_map() {
    let mut db = HashMap::new();
    db.insert(1465, "Froderik".to_string());
    db.insert(5959, "Valery Beaud".to_string());
    let (names, _) = resolve(&db, &[1465, 5959]);
    assert_eq!(names.len(), 2);
    assert_eq!(names.get(&1465).map(String::as_str), Some("Froderik"));
    assert_eq!(names.get(&5959).map(String::as_str), Some("Valery Beaud"));
}

#[test]
fn resolve_users_skips_missing_ids_in_response() {
    let mut db = HashMap::new();
    db.insert(1, "A".to_string());
    let (names, _) = resolve(&db, &[1, 2, 3]);
    assert_eq!(names.len(), 1);
    assert_eq!(names.get(&1).map(String::as_str), Some("A"));
}

#[test]
fn resolve_users_batches_over_50() {
    let mut db = HashMap::new();
    for i in 1..=51u64 {
        db.insert(i, format!("u{i}"));
    }
    let ids: Vec<u64> = (1..=51).collect();
    let (names, batches) = resolve(&db, &ids);
    assert_eq!(names.len(), 51);
    assert_eq!(batches.len(), 2, "expected exactly 2 batches");
    assert_eq!(batches[0].len(), 50);
    assert_eq!(batches[1].len(), 1);
}

#[test]
fn resolve_users_dedupes_input() {
    let mut db = HashMap::new();
    db.insert(7, "Lucky".to_string());
    let (_, batches) = resolve(&db, &[7, 7, 7]);
    assert_eq!(batches.len(), 1);
    assert_eq!(batches[0], vec![7]);
}

#[test]
fn resolve_users_empty_input_returns_empty() {
    let (names, batches) = resolve(&HashMap::new(), &[]);
    assert!(names.is_empty());
    assert!(batches.is_empty());
}

#[test]
fn batches_ascend() {
    assert_eq!(user_batches(&[9, 3, 9, 1]), vec![vec![1, 3, 9]]);
    let params = users_params(&vec![1, 3, 9]);
    assert!(params.contains(&("ususerids".to_string(), "1|3|9".to_string())));
}

#[test]
fn fetch_parsoid_html_returns_body_on_200() {
    let client = MwClientBuilder::for_api_url("http://example.invalid/w/api.php")
        .rest_base_url("http://127.0.0.1:8080")
        .build();
    assert_eq!(
        client.parsoid_url("Cat", 12345),
        "http://127.0.0.1:8080/page/html/Cat/12345"
    );
    let event = HttpEvent::Answered {
        status: 200,
        retry_after: None,
    };
    let (_, action) = client.after_try(RetryState::new().begin(), event, true);
    assert!(matches!(action, RetryAction::Accept));
}

#[test]
fn fetch_parsoid_html_translates_404_to_page_missing() {
    let client = MwClientBuilder::for_api_url("http://example.invalid/w/api.php")
        .rest_base_url("http://127.0.0.1:8080")
        .build();
    let event = HttpEvent::Answered {
        status: 404,
        retry_after: None,
    };
    let (_, action) = client.after_try(RetryState::new().begin(), event, true);
    assert!(matches!(
        action,
        RetryAction::Fail(MwError::PageMissing { .. })
    ));
}

#[test]
fn fetch_rendered_html_extracts_parse_text() {
    let body = json(
        r#"{"parse": {"title": "Cat", "pageid": 1, "revid": 12345,
            "text": "<div class=\"mw-content-ltr mw-parser-output\"><p>hello world</p></div>"}}"#,
    );
    let html = rendered_html(accept_body(body)).unwrap();
    assert!(html.starts_with("<div class=\"mw-content-ltr mw-parser-output\""));
    assert!(html.contains("hello world"));
}

#[test]
fn fetch_rendered_html_translates_nosuchrevid_to_page_missing() {
    let body = json(
        r#"{"error": {"code": "nosuchrevid", "info": "There is no revision with ID 9999."}}"#,
    );
    let err = rendered_html(accept_body(body)).unwrap_err();
    assert!(matches!(err, MwError::PageMissing { .. }));
}

#[test]
fn fetch_parsoid_html_percent_encodes_title() {
    let client = MwClientBuilder::for_api_url("http://example.invalid/w/api.php")
        .rest_base_url("http://127.0.0.1:8080")
        .build();
    assert_eq!(
        client.parsoid_url("中国/Test", 7),
        "http://127.0.0.1:8080/page/html/%E4%B8%AD%E5%9B%BD%2FTest/7"
    );
}

#[test]
fn the_source_of_a_revision_is_found() {
    let params = source_params(42);
    assert_eq!(params.last(), Some(&("revids".to_string(), "42".to_string())));
    assert_eq!(params.len(), 7);
    let body = json(
        r#"{"query":{"pages":[{"revisions":[{"slots":{"main":{"content":"''text''"}}}]}]}}"#,
    );
    assert_eq!(parse_source(&body).unwrap(), "''text''");
    for body in ["{}", r#"{"query":{"pages":[]}}"#, r#"{"query":{"pages":[{"missing":true}]}}"#] {
        assert!(matches!(parse_source(&json(body)), Err(MwError::PageMissing { page_id: 0 })));
    }
}

#[test]
fn a_source_is_sent_to_be_rendered() {
    let params = render_params("Cat", "''text''");
    let value = |name: &str| params.iter().find(|p| p.0 == name).map(|p| p.1.as_str());
    assert_eq!(params.len(), 8);
    assert_eq!(value("action"), Some("parse"));
    assert_eq!(value("title"), Some("Cat"));
    assert_eq!(value("text"), Some("''text''"));
}
