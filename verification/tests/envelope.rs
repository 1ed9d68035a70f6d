use serde_json::Value;
use std::collections::HashMap;
use wikiwho::handlers::whocolor::{build_whocolor_envelope, unique_registered_editor_ids};
use wikiwho::json::JsonValue;
use wikiwho::whocolor::{WhoColorData, WhoColorRevision, WhoColorToken};
use wikiwho::whocolor_html::token_class_name;
use wikiwho::whocolor_wikitext::PresentEditorEntry;

fn number(text: &str) -> Value {
    serde_json::from_str(text).unwrap()
}

fn serde(v: &JsonValue) -> Value {
    match v {
        JsonValue::Null => Value::Null,
        JsonValue::Bool(b) => Value::Bool(*b),
        JsonValue::Unsigned(n) => number(&n.to_string()),
        JsonValue::Negative(n) => number(&n.to_string()),
        JsonValue::Fraction(num, den) => Value::from(*num as f64 / *den as f64),
        JsonValue::Real(digits) => number(digits),
        JsonValue::Text(s) => Value::String(s.clone()),
        JsonValue::Array(items) => Value::Array(items.iter().map(serde).collect()),
        JsonValue::Object(fields) => Value::Object(
            fields
                .iter()
                .map(|f| (f.name.clone(), serde(&f.value)))
                .collect(),
        ),
    }
}

#[test]
fn unique_editor_ids_dedup_and_skip_anons() {
    let data = WhoColorData {
        tokens: vec![],
        revisions: vec![
            (
                10,
                WhoColorRevision {
                    timestamp: "2024-01-01T00:00:00Z".into(),
                    parent_rev_id: 0,
                    editor: "1".into(),
                },
            ),
            (
                20,
                WhoColorRevision {
                    timestamp: "2024-01-02T00:00:00Z".into(),
                    parent_rev_id: 10,
                    editor: "0|192.0.2.1".into(),
                },
            ),
            (
                30,
                WhoColorRevision {
                    timestamp: "2024-01-03T00:00:00Z".into(),
                    parent_rev_id: 20,
                    editor: "1".into(),
                },
            ),
            (
                40,
                WhoColorRevision {
                    timestamp: "2024-01-04T00:00:00Z".into(),
                    parent_rev_id: 30,
                    editor: "".into(),
                },
            ),
        ],
        biggest_conflict_score: 0,
    };
    let ids = unique_registered_editor_ids(&data);
    assert_eq!(ids, vec![1]);
}

#[test]
fn build_envelope_shape_matches_api_md() {
    let data = WhoColorData {
        tokens: vec![WhoColorToken {
            str: "hello".into(),
            o_rev_id: 10,
            inbound: vec![],
            outbound: vec![],
            editor: "1".into(),
            conflict_score: 3,
            age_seconds: 12345,
        }],
        revisions: vec![(
            10,
            WhoColorRevision {
                timestamp: "2024-01-01T00:00:00Z".into(),
                parent_rev_id: 0,
                editor: "1".into(),
            },
        )],
        biggest_conflict_score: 3,
    };
    let mut names = HashMap::new();
    names.insert(1u64, "Alice".to_string());

    let env = serde(&build_whocolor_envelope(
        "Test",
        10,
        &data,
        &names,
        "<html>...</html>".into(),
        &[PresentEditorEntry {
            editor: "1".into(),
            class_name: "1".into(),
            token_count: 1,
        }],
    ));

    assert_eq!(env["page_title"], Value::String("Test".into()));
    assert_eq!(env["success"], Value::Bool(true));
    assert_eq!(env["rev_id"], 10);
    assert_eq!(env["biggest_conflict_score"], 3);
    assert_eq!(env["extended_html"], "<html>...</html>");

    let tokens = env["tokens"].as_array().unwrap();
    assert_eq!(tokens.len(), 1);
    let tok = tokens[0].as_array().unwrap();
    assert_eq!(tok[0], 3);
    assert_eq!(tok[1], "hello");
    assert_eq!(tok[2], 10);
    assert_eq!(tok[5], "1");
    assert_eq!(tok[6], 12345.0);

    let revs = env["revisions"].as_object().unwrap();
    let entry = revs["10"].as_array().unwrap();
    assert_eq!(entry[0], "2024-01-01T00:00:00Z");
    assert_eq!(entry[1], 0);
    assert_eq!(entry[2], "1");
    assert_eq!(entry[3], "Alice");

    let pe = env["present_editors"].as_array().unwrap();
    assert_eq!(pe.len(), 1);
    let triple = pe[0].as_array().unwrap();
    assert_eq!(triple.len(), 3, "present_editors entries are triples");
    assert_eq!(triple[0], "Alice");
    assert_eq!(triple[1], "1");
    assert!((triple[2].as_f64().unwrap() - 100.0).abs() < 1e-9);
}

#[test]
fn build_envelope_anon_keeps_prefix_in_display_name() {
    let data = WhoColorData {
        tokens: vec![],
        revisions: vec![(
            7,
            WhoColorRevision {
                timestamp: "2024-01-01T00:00:00Z".into(),
                parent_rev_id: 0,
                editor: "0|192.0.2.1".into(),
            },
        )],
        biggest_conflict_score: 0,
    };
    let env = serde(&build_whocolor_envelope(
        "X",
        7,
        &data,
        &HashMap::new(),
        String::new(),
        &[PresentEditorEntry {
            editor: "0|192.0.2.1".into(),
            class_name: token_class_name("0|192.0.2.1"),
            token_count: 1,
        }],
    ));
    let revs = env["revisions"].as_object().unwrap();
    let entry = revs["7"].as_array().unwrap();
    let class = entry[2].as_str().unwrap();
    assert_eq!(class.len(), 32);
    assert!(class.chars().all(|c| c.is_ascii_hexdigit()));
    assert_eq!(entry[3], "0|192.0.2.1");

    let pe = env["present_editors"].as_array().unwrap();
    let triple = pe[0].as_array().unwrap();
    assert_eq!(triple.len(), 3, "present_editors entries are triples");
    assert_eq!(triple[0], "0|192.0.2.1");
    assert!((triple[2].as_f64().unwrap() - 100.0).abs() < 1e-9);
}
