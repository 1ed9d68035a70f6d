use serde_json::Value;
use wikiwho::json::JsonValue;
use wikiwho::pipeline::{RevisionInput, RevisionOutcome};
use wikiwho::response::{build_rev_content, ResponseParameters};
use wikiwho::structures::Article;

fn number(text: &str) -> Value {
    serde_json::from_str(text).unwrap()
}

fn serde(v: &JsonValue) -> Value {
    match v {
        JsonValue::Null => Value::Null,
        JsonValue::Bool(b) => Value::Bool(*b),
        JsonValue::Unsigned(n) => number(&n.to_string()),
        JsonValue::Negative(n) => number(&n.to_string()),
        JsonValue::Fraction(num, den) => Value::from(*num as f64 / *den as f64),
        JsonValue::Real(digits) => number(digits),
        JsonValue::Text(s) => Value::String(s.clone()),
        JsonValue::Array(items) => Value::Array(items.iter().map(serde).collect()),
        JsonValue::Object(fields) => Value::Object(
            fields
                .iter()
                .map(|f| (f.name.clone(), serde(&f.value)))
                .collect(),
        ),
    }
}

fn fixture_article() -> Article {
    let mut article = Article::new("Demo");
    article.page_id = Some(7);
    let mut feed = |rev_id: u64, user_id: u64, ts: &str, text: &str| {
        article.analyse_revision(RevisionInput {
            rev_id,
            timestamp: ts.into(),
            user_id: Some(user_id),
            user_name: Some(format!("u{user_id}")),
            comment: None,
            minor: false,
            sha1: None,
            text: text.into(),
        })
    };
    assert_eq!(
        feed(101, 11, "2024-01-01T00:00:00Z", "Hello there friend."),
        RevisionOutcome::Stored
    );
    assert_eq!(
        feed(102, 22, "2024-01-02T00:00:00Z", "Hello dear friend."),
        RevisionOutcome::Stored
    );
    article
}

#[test]
fn envelope_matches_python_reference_shape() {
    let article = fixture_article();
    let resp = build_rev_content(&article, &[102], ResponseParameters::all()).unwrap();
    let v = serde(&resp.to_json());
    assert_eq!(v["article_title"], "Demo");
    assert_eq!(v["page_id"], 7);
    assert_eq!(v["success"], true);
    assert_eq!(v["message"], Value::Null);
    assert_eq!(v["revisions"].as_array().unwrap().len(), 1);
    let inner = &v["revisions"][0];
    let key = inner.as_object().unwrap().keys().next().unwrap();
    assert_eq!(key, "102");
    let body = &inner[key];
    assert!(body["editor"].is_string());
    assert!(body["time"].is_string());
    assert!(body["tokens"].is_array());
}

#[test]
fn token_omits_unrequested_fields() {
    let article = fixture_article();
    let resp = build_rev_content(&article, &[102], ResponseParameters::none()).unwrap();
    let v = serde(&resp.to_json());
    let first_token = &v["revisions"][0]["102"]["tokens"][0];
    assert!(first_token.get("str").is_some());
    assert!(first_token.get("o_rev_id").is_none());
    assert!(first_token.get("editor").is_none());
    assert!(first_token.get("token_id").is_none());
    assert!(first_token.get("in").is_none());
    assert!(first_token.get("out").is_none());
}

#[test]
fn token_field_order_matches_python() {
    let article = fixture_article();
    let resp = build_rev_content(&article, &[102], ResponseParameters::all()).unwrap();
    let s = serde(&resp.to_json()).to_string();
    let token_start = s
        .find(r#""tokens":[{"#)
        .expect("tokens array present");
    let sub = &s[token_start + r#""tokens":[{"#.len()..];
    let cut = sub.find('}').expect("token object closer");
    let token_blob = &sub[..cut];
    let keys_in_order: Vec<&str> = token_blob
        .split(',')
        .filter_map(|pair| {
            let p = pair.trim_start_matches(',');
            let k_start = p.find('"')?;
            let after = &p[k_start + 1..];
            let k_end = after.find('"')?;
            Some(&after[..k_end])
        })
        .collect();
    assert_eq!(
        keys_in_order,
        vec!["str", "o_rev_id", "editor", "token_id", "in", "out"],
        "actual blob: {token_blob}"
    );
}

#[test]
fn missing_rev_id_returns_python_error_shape() {
    let article = fixture_article();
    let err = build_rev_content(&article, &[9999], ResponseParameters::all()).unwrap_err();
    let v = serde(&err.to_json());
    assert_eq!(v["Error"], "Revision ID (9999) does not exist or is spam or deleted!");
    assert!(v.get("error").is_none(), "key must be capital 'Error', not 'error'");
}

#[test]
fn two_rev_ids_is_half_open_range() {
    let mut article = fixture_article();
    article.analyse_revision(RevisionInput {
        rev_id: 103,
        timestamp: "2024-01-03T00:00:00Z".into(),
        user_id: Some(33),
        user_name: Some("u33".into()),
        comment: None,
        minor: false,
        sha1: None,
        text: "Hello dear best friend.".into(),
    });
    let resp = build_rev_content(&article, &[101, 103], ResponseParameters::none()).unwrap();
    let v = serde(&resp.to_json());
    let ids: Vec<&str> = v["revisions"]
        .as_array()
        .unwrap()
        .iter()
        .map(|r| r.as_object().unwrap().keys().next().unwrap().as_str())
        .collect();
    assert_eq!(ids, vec!["101", "102"]);
}
