use wikiwho::index::TitleIndex;

fn entry(title: &str, page_id: u64) -> (String, u64) {
    (title.to_string(), page_id)
}

#[test]
fn build_indexes_every_article_in_language() {
    let index = TitleIndex::build(&vec![
        entry("Foo", 1),
        entry("Bar", 1001),
        entry("Baz", 12345678),
    ]);
    assert_eq!(index.len(), 3);
    assert_eq!(index.lookup("Foo"), Some(1));
    assert_eq!(index.lookup("Bar"), Some(1001));
    assert_eq!(index.lookup("Baz"), Some(12345678));
    assert_eq!(index.lookup("OtherWikiArticle"), None);
}

#[test]
fn build_returns_empty_when_language_dir_missing() {
    let index = TitleIndex::build(&Vec::new());
    assert!(index.is_empty());
}

#[test]
fn manual_insert_overrides_existing_entry() {
    let mut index = TitleIndex::empty();
    index.insert("Foo", 1);
    assert_eq!(index.lookup("Foo"), Some(1));
    index.insert("Foo", 999);
    assert_eq!(index.lookup("Foo"), Some(999));
}
