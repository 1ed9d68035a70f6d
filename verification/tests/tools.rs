use wikiwho::capture::{
    find_last_line, is_due, is_selected, line_is_target, line_matches_target, next_chunk,
    CaptureOutcome, CaptureProgress, Totals,
};
use wikiwho::compare::{
    check_capture, compare_revisions, compare_tokens, format_token_diff, is_asked_for,
    score_one_token, token_total, CaptureFault, Tally,
};
use wikiwho::json::{JsonField, JsonValue};
use wikiwho::text::StringHashMap;
use wikiwho::whocolor::{WhoColorData, WhoColorRevision, WhoColorToken};
use wikiwho::whocolor_html::token_class_name;

fn num(n: u128) -> JsonValue {
    JsonValue::Unsigned(n)
}

fn list(ns: &[u128]) -> JsonValue {
    JsonValue::Array(ns.iter().map(|n| num(*n)).collect())
}

fn token() -> WhoColorToken {
    WhoColorToken {
        str: "a\"b".into(),
        o_rev_id: 4,
        inbound: vec![6],
        outbound: vec![5],
        editor: "0|1.2.3.4".into(),
        conflict_score: 2,
        age_seconds: 60,
    }
}

fn row(conflict: u128, text: &str, class: &str) -> Vec<JsonValue> {
    vec![
        num(conflict),
        JsonValue::text(text),
        num(4),
        list(&[6]),
        list(&[5]),
        JsonValue::text(class),
        num(60),
    ]
}

#[test]
fn equal_tokens_pass() {
    let class = token_class_name("0|1.2.3.4");
    assert_eq!(class.len(), 32);
    let score = score_one_token(&token(), &row(2, "a\"b", &class), true);
    assert!(score.all_required_pass() && score.age);
}

#[test]
fn differences_are_quoted() {
    let score = score_one_token(&token(), &row(3, "x", "c"), false);
    assert!(!score.all_required_pass());
    assert!(!score.str && !score.conflict_score && !score.class_name && score.o_rev_id);
    assert_eq!(
        format_token_diff(7, &token(), &row(3, "x", "c"), score),
        format!(
            "token[7] (a\"b): conflict_score: rust=2 prod=3; str: rust=\"a\\\"b\" prod=\"x\"; class_name: rust={} prod=\"c\"",
            token_class_name("0|1.2.3.4")
        )
    );
    let mut other = row(2, "a\"b", &token_class_name("0|1.2.3.4"));
    other[3] = list(&[]);
    other[4] = list(&[1, 2]);
    let score = score_one_token(&token(), &other, false);
    assert_eq!(
        format_token_diff(0, &token(), &other, score),
        "token[0] (a\"b): in: rust=[6] prod=[]; out: rust=[5] prod=[1, 2]"
    );
}

#[test]
fn tokens_are_compared_one_by_one() {
    let class = token_class_name("0|1.2.3.4");
    let captured = vec![
        JsonValue::Array(row(2, "a\"b", &class)),
        JsonValue::Array(row(9, "a\"b", &class)),
        JsonValue::Array(row(2, "a\"b", &class)),
    ];
    let m = compare_tokens(&vec![token(), token()], &captured, Some(&vec![true, false]));
    assert_eq!((m.tokens_total, m.tokens_pass), (3, 1));
    assert_eq!((m.field_str_pass, m.field_conflict_pass), (2, 1));
    assert_eq!((m.age_checked, m.field_age_pass), (2, 1));
    assert_eq!(
        m.first_token_diff.as_deref(),
        Some("token count differs: rust=2 prod=3")
    );
    assert!(!m.all_pass());
}

#[test]
fn revisions_are_compared_by_id() {
    let data = WhoColorData {
        tokens: vec![],
        revisions: vec![
            (
                1,
                WhoColorRevision {
                    timestamp: "t".into(),
                    parent_rev_id: 0,
                    editor: "5".into(),
                },
            ),
            (
                2,
                WhoColorRevision {
                    timestamp: "t".into(),
                    parent_rev_id: 1,
                    editor: "5".into(),
                },
            ),
        ],
        biggest_conflict_score: 0,
    };
    let mut rows: StringHashMap<Vec<JsonValue>> = StringHashMap::new();
    rows.insert(
        "1".to_string(),
        vec![JsonValue::text("t"), num(0), JsonValue::text("5")],
    );
    let (total, pass, first) = compare_revisions(&data, &rows);
    assert_eq!((total, pass), (1, 1));
    assert_eq!(first.as_deref(), Some("rust rev 2 absent from prod"));
}

#[test]
fn captures_are_checked() {
    assert_eq!(check_capture(true, 1, 1), Ok(()));
    assert_eq!(check_capture(false, 1, 1), Err(CaptureFault::Unsuccessful));
    assert_eq!(check_capture(true, 1, 2), Err(CaptureFault::Mismatch));
}

#[test]
fn filters_select_pages() {
    assert!(is_asked_for(&vec![], "en/1"));
    assert!(is_asked_for(&vec!["en".into()], "en/1"));
    assert!(!is_asked_for(&vec!["de".into()], "en/1"));
    assert!(is_selected(&vec![], "en", 12, "p"));
    assert!(is_selected(&vec!["n/1".into()], "en", 12, "p"));
    assert!(is_selected(&vec!["fix".into()], "en", 12, "a/fix/b"));
    assert!(!is_selected(&vec!["x".into()], "en", 12, "p"));
    assert!(is_due(true, true) && is_due(false, false) && !is_due(false, true));
}

#[test]
fn totals_add_up() {
    let mut t = Totals::new();
    for o in [
        CaptureOutcome::Captured,
        CaptureOutcome::Skipped,
        CaptureOutcome::Skipped,
        CaptureOutcome::Aborted,
    ] {
        t = t.record(o);
    }
    assert!(t.succeeded());
    t = t.record(CaptureOutcome::Failed);
    assert_eq!((t.captured, t.skipped, t.aborted, t.failed), (1, 2, 1, 1));
    assert!(!t.succeeded());
    let tally = Tally::new().add_fixture(2, 30).add_load_failure().add_fixture(1, 4);
    assert_eq!((tally.fixtures, tally.fixtures_failed_to_load), (3, 1));
    assert_eq!((tally.revisions_total, tally.tokens_total), (3, 34));
}

#[test]
fn captures_report_and_abort() {
    let (p, s) = CaptureProgress::new().after_batch(50, false, Some(100));
    assert!(s.report && !s.abort);
    let (p, s) = p.after_batch(50, false, Some(100));
    assert_eq!(p.written, 100);
    assert!(!s.report && s.abort);
    let (_, s) = p.after_batch(1, true, Some(100));
    assert!(s.report && !s.abort);
}

#[test]
fn the_last_line_is_found_from_the_end() {
    let file = b"{\"rev_id\": 1}\n{\"rev_id\": 22}\n\n";
    for k in 0..file.len() {
        if let Some((from, to)) = find_last_line(&file[k..], k == 0) {
            assert_eq!(&file[k + from..k + to], b"{\"rev_id\": 22}");
        }
    }
    assert_eq!(find_last_line(&file[14..], false), None);
    assert_eq!(find_last_line(b"one", true), Some((0, 3)));
    assert_eq!(next_chunk(16), 64);
    assert_eq!(next_chunk(u64::MAX), u64::MAX);
    let line = JsonValue::Object(vec![JsonField {
        name: "rev_id".into(),
        value: num(22),
    }]);
    assert!(line_matches_target(Some(&line), 22));
    assert!(!line_matches_target(Some(&line), 23));
    assert!(!line_matches_target(None, 22));
}

#[test]
fn raw_lines_are_read() {
    let line = br#" {"timestamp": "t", "rev_id": 22, "text": "{\"rev_id\": 23}"} "#;
    assert!(line_is_target(line, 22));
    assert!(!line_is_target(line, 23));
    assert!(line_is_target(br#"{"rev_id": 1, "rev_id": 22}"#, 22));
    for other in [
        &b"{\"rev_id\": 22"[..],
        b"",
        b"22",
        b"[22]",
        b"{\"rev_id\": \"22\"}",
        b"{\"rev_id\": -22}",
        b"{\"rev_id\": 22.0}",
        b"{\"rev_id\": 22, \"text\": \"\xff\"}",
    ] {
        assert!(!line_is_target(other, 22));
    }
}

#[test]
fn token_counts_are_added_up() {
    assert_eq!(token_total(&[]), 0);
    assert_eq!(token_total(&[3, 0, 4]), 7);
    assert_eq!(token_total(&[u64::MAX, 1]), u64::MAX);
}
