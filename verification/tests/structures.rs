use wikiwho::structures::{Article, MatchedSets, Word};

#[test]
fn article_alloc_word_assigns_sequential_ids() {
    let mut a = Article::new("Test");
    let id0 = a.alloc_word("foo".into(), 100);
    let id1 = a.alloc_word("bar".into(), 100);
    let id2 = a.alloc_word("baz".into(), 200);
    assert_eq!(id0, 0);
    assert_eq!(id1, 1);
    assert_eq!(id2, 2);
    assert_eq!(a.tokens.len(), 3);
    assert_eq!(a.next_token_id, 3);

    assert_eq!(a.word(id0).value, "foo");
    assert_eq!(a.word(id0).origin_rev_id, 100);
    assert_eq!(a.word(id0).last_rev_id, 100);
    assert!(a.word(id0).inbound.is_empty());
    assert!(a.word(id0).outbound.is_empty());
}

#[test]
fn article_alloc_sentence_paragraph() {
    let mut a = Article::new("Test");
    let s0 = a.alloc_sentence("abc".into(), "value".into());
    let p0 = a.alloc_paragraph("def".into(), "para text".into());
    assert_eq!(s0, 0);
    assert_eq!(p0, 0);
    assert_eq!(a.sentence(s0).hash_value, "abc");
    assert_eq!(a.paragraph(p0).value, "para text");
}

#[test]
fn matched_sets_default_empty() {
    let m = MatchedSets::new();
    assert!(m.paragraphs.is_empty());
    assert!(m.sentences.is_empty());
    assert!(m.tokens.is_empty());
}

#[test]
fn word_new_initializes_lists_empty() {
    let w = Word::new(42, "value".into(), 1000);
    assert_eq!(w.token_id, 42);
    assert_eq!(w.origin_rev_id, 1000);
    assert_eq!(w.last_rev_id, 1000);
    assert!(w.inbound.is_empty());
    assert!(w.outbound.is_empty());
}
