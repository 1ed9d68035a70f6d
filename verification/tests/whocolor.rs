use wikiwho::pipeline::RevisionInput;
use wikiwho::structures::{Article, RevId};
use wikiwho::whocolor::{
    compute_conflict_score, get_whocolor_data, parse_mw_timestamp, WhoColorError,
};

fn analyse(article: &mut Article, rev_id: RevId, ts: &str, editor: &str, text: &str) {
    article.analyse_revision(RevisionInput {
        rev_id,
        timestamp: ts.into(),
        sha1: None,
        comment: None,
        minor: false,
        user_id: editor.parse::<u64>().ok(),
        user_name: if editor.parse::<u64>().is_ok() {
            None
        } else {
            Some(editor.into())
        },
        text: text.into(),
    });
}

#[test]
fn parse_timestamp_works_for_iso_z() {
    assert_eq!(parse_mw_timestamp("2000-01-01T00:00:00Z"), Some(946684800));
    assert_eq!(parse_mw_timestamp("1970-01-01T00:00:00Z"), Some(0));
    assert!(parse_mw_timestamp("2026-05-23T13:00:00Z").unwrap() > 0);
}

#[test]
fn parse_timestamp_rejects_bad_shape() {
    assert!(parse_mw_timestamp("").is_none());
    assert!(parse_mw_timestamp("not-a-timestamp").is_none());
    assert!(parse_mw_timestamp("2026/05/23T13:00:00Z").is_none());
    assert!(parse_mw_timestamp("2026-05-23T13:00").is_none());
}

#[test]
fn whocolor_returns_data_for_known_revision() {
    let mut article = Article::new("Sample");
    article.page_id = Some(42);
    analyse(&mut article, 101, "2024-01-01T00:00:00Z", "1", "Hello world.");
    analyse(&mut article, 102, "2024-01-02T00:00:00Z", "2", "Hello there world.");

    let now = parse_mw_timestamp("2026-01-01T00:00:00Z").unwrap();
    let data = get_whocolor_data(&article, 102, now).unwrap();

    assert_eq!(data.revisions.len(), 2);
    let (rid0, rev0) = &data.revisions[0];
    assert_eq!(*rid0, 101);
    assert_eq!(rev0.parent_rev_id, 0);
    assert_eq!(rev0.editor, "1");

    let (rid1, rev1) = &data.revisions[1];
    assert_eq!(*rid1, 102);
    assert_eq!(rev1.parent_rev_id, 101);
    assert_eq!(rev1.editor, "2");

    for t in &data.tokens {
        assert!(t.age_seconds > 60_000_000);
    }
    assert_eq!(data.biggest_conflict_score, 0);
}

#[test]
fn whocolor_errors_on_unknown_revision() {
    let mut article = Article::new("Sample");
    analyse(&mut article, 101, "2024-01-01T00:00:00Z", "1", "Hello.");
    let err = get_whocolor_data(&article, 999, 0).unwrap_err();
    assert!(matches!(err, WhoColorError::UnknownRevision(999)));
}

#[test]
fn conflict_score_pure_function_zero_when_no_history() {
    let article = Article::new("X");
    assert_eq!(compute_conflict_score(&article, &[], &[]), 0);
}

#[test]
fn conflict_score_counts_deleter_vs_reintroducer() {
    let mut article = Article::new("X");
    article.revisions.insert(
        10,
        wikiwho::structures::Revision {
            id: 10,
            editor: "alice".into(),
            timestamp: "2024-01-01T00:00:00Z".into(),
            ..Default::default()
        },
    );
    article.revisions.insert(
        20,
        wikiwho::structures::Revision {
            id: 20,
            editor: "bob".into(),
            timestamp: "2024-01-02T00:00:00Z".into(),
            ..Default::default()
        },
    );
    article.revisions.insert(
        30,
        wikiwho::structures::Revision {
            id: 30,
            editor: "alice".into(),
            timestamp: "2024-01-03T00:00:00Z".into(),
            ..Default::default()
        },
    );

    assert_eq!(compute_conflict_score(&article, &[30], &[20]), 1);

    article.revisions.insert(
        40,
        wikiwho::structures::Revision {
            id: 40,
            editor: "alice".into(),
            timestamp: "2024-01-04T00:00:00Z".into(),
            ..Default::default()
        },
    );
    assert_eq!(compute_conflict_score(&article, &[40], &[20]), 1);
}

#[test]
fn conflict_score_counts_chained_reverts() {
    let mut article = Article::new("X");
    for (id, ed) in [(10, "alice"), (20, "bob"), (30, "carol"), (40, "dave")] {
        article.revisions.insert(
            id,
            wikiwho::structures::Revision {
                id,
                editor: ed.into(),
                timestamp: "2024-01-01T00:00:00Z".into(),
                ..Default::default()
            },
        );
    }
    assert_eq!(compute_conflict_score(&article, &[30], &[20, 40]), 2);
}
