use wikiwho::cache_miss::build_article_from_revisions;
use wikiwho::mwclient::revisions::Revision;
use wikiwho::response::{build_rev_content, ResponseParameters};

fn rev(rev_id: u64, ts: &str, user: u64, text: &str) -> Revision {
    Revision {
        rev_id,
        parent_id: 0,
        timestamp: ts.into(),
        sha1: None,
        comment: None,
        minor: false,
        user_id: Some(user),
        user_name: Some(format!("u{user}")),
        text: text.into(),
        text_hidden: false,
    }
}

#[test]
fn build_article_skips_text_hidden_revisions() {
    let revs = [
        rev(1, "2024-01-01T00:00:00Z", 10, "Hello world."),
        Revision {
            rev_id: 2,
            parent_id: 1,
            timestamp: "2024-01-02T00:00:00Z".into(),
            sha1: None,
            comment: None,
            minor: false,
            user_id: Some(11),
            user_name: Some("u11".into()),
            text: String::new(),
            text_hidden: true,
        },
        rev(3, "2024-01-03T00:00:00Z", 12, "Hello dear world."),
    ];
    let article = build_article_from_revisions("Demo", 7, &revs);
    assert_eq!(article.ordered_revisions, vec![1, 3]);
    assert_eq!(article.page_id, Some(7));
    assert_eq!(article.title, "Demo");
}

#[test]
fn process_and_persist_writes_all_storage_files_and_index() {
    let revs = vec![
        rev(101, "2024-01-01T00:00:00Z", 10, "Hello world."),
        rev(102, "2024-01-02T00:00:00Z", 11, "Hello there, world."),
    ];
    let article = build_article_from_revisions("Demo", 7, &revs);
    assert_eq!(article.ordered_revisions, vec![101, 102]);
    let resp = build_rev_content(&article, &[102], ResponseParameters::all()).unwrap();
    assert_eq!(resp.revisions.len(), 1);
}

#[test]
fn process_and_persist_empty_history_writes_empty_article() {
    let article = build_article_from_revisions("Empty", 99, &[]);
    assert!(article.ordered_revisions.is_empty());
}
