use wikiwho::pipeline::{derive_editor, RevisionInput, RevisionOutcome, VandalismReason};
use wikiwho::structures::{Article, RevId, Revision};
use wikiwho::tokenize::{hash_md5, tokenize_revision};

fn make_input(rev_id: RevId, text: &str) -> RevisionInput {
    RevisionInput {
        rev_id,
        timestamp: "2024-01-01T00:00:00Z".into(),
        text: text.into(),
        sha1: None,
        comment: None,
        minor: false,
        user_id: Some(1),
        user_name: Some("alice".into()),
    }
}

#[test]
fn derive_editor_cases() {
    assert_eq!(derive_editor(Some(0), Some("1.2.3.4")), "0|1.2.3.4");
    assert_eq!(derive_editor(Some(0), None), "0|");
    assert_eq!(derive_editor(Some(42), Some("ignored")), "42");
    assert_eq!(derive_editor(None, Some("alice")), "");
    assert_eq!(derive_editor(None, None), "");
}

#[test]
fn analyse_revision_first_revision_commits() {
    let mut article = Article::new("Test");
    let text = "Hello world.\n\nSecond paragraph here.";
    let outcome = article.analyse_revision(make_input(100, text));
    assert_eq!(outcome, RevisionOutcome::Stored);
    assert_eq!(article.last_good_rev_id, 100);
    assert_eq!(article.ordered_revisions, vec![100]);
    assert!(article.revisions.contains_key(&100));

    let direct = tokenize_revision(&text.to_lowercase());
    let arena: Vec<_> = article.tokens.iter().map(|w| w.value.clone()).collect();
    assert_eq!(arena, direct);
    for w in &article.tokens {
        assert_eq!(w.origin_rev_id, 100);
        assert_eq!(w.last_rev_id, 100);
        assert!(w.inbound.is_empty());
        assert!(w.outbound.is_empty());
    }
    assert!(!article.paragraphs_ht.is_empty());
    assert!(!article.sentences_ht.is_empty());
    for p in &article.paragraphs {
        assert!(p.value.is_empty());
    }
    for s in &article.sentences {
        assert!(s.value.is_empty());
    }
}

#[test]
fn analyse_revision_identical_text_reuses_paragraphs() {
    let mut article = Article::new("Test");
    let text = "Hello world.\n\nSecond paragraph here.";
    article.analyse_revision(make_input(100, text));
    let tokens_after_first = article.tokens.len();
    let paragraphs_after_first = article.paragraphs.len();
    let sentences_after_first = article.sentences.len();

    let outcome = article.analyse_revision(make_input(101, text));
    assert_eq!(outcome, RevisionOutcome::Stored);
    assert_eq!(article.tokens.len(), tokens_after_first);
    assert_eq!(article.paragraphs.len(), paragraphs_after_first);
    assert_eq!(article.sentences.len(), sentences_after_first);
    assert_eq!(article.last_good_rev_id, 101);
    assert_eq!(article.ordered_revisions, vec![100, 101]);
}

#[test]
fn analyse_revision_added_paragraph_only_grows_arena_for_new_content() {
    let mut article = Article::new("Test");
    let r1 = "Original paragraph.";
    let r2 = "Original paragraph.\n\nA brand new paragraph.";
    article.analyse_revision(make_input(100, r1));
    let toks_before = article.tokens.len();
    let paras_before = article.paragraphs.len();

    article.analyse_revision(make_input(101, r2));
    let new_tokens: Vec<_> = article.tokens[toks_before..]
        .iter()
        .map(|w| w.value.clone())
        .collect();
    assert_eq!(
        new_tokens,
        tokenize_revision("a brand new paragraph.")
    );
    assert_eq!(article.paragraphs.len(), paras_before + 1);
    for w in &article.tokens[toks_before..] {
        assert_eq!(w.origin_rev_id, 101);
    }
}

#[test]
fn analyse_revision_hash_match_marks_vandalism_and_skips_processing() {
    let mut article = Article::new("Test");
    let spam_hash = hash_md5("doesn't matter");
    article.spam_hashes.insert(spam_hash.clone());

    let input = RevisionInput {
        rev_id: 999,
        timestamp: "2024-01-01T00:00:00Z".into(),
        text: "irrelevant content".into(),
        sha1: Some(spam_hash),
        comment: None,
        minor: false,
        user_id: Some(1),
        user_name: Some("bob".into()),
    };
    let outcome = article.analyse_revision(input);
    assert_eq!(outcome, RevisionOutcome::Vandalism(VandalismReason::HashMatch));
    assert!(article.revisions.is_empty());
    assert_eq!(article.spam_ids, vec![999]);
    assert!(article.tokens.is_empty());
    assert!(article.paragraphs.is_empty());
}

fn varied_text(token_count: usize) -> String {
    (0..token_count)
        .map(|i| format!("uniqueword{i} "))
        .collect()
}

#[test]
fn analyse_revision_length_shrink_flags_vandalism() {
    let mut article = Article::new("Test");
    let big = varied_text(200);
    let r = article.analyse_revision(make_input(100, &big));
    assert_eq!(r, RevisionOutcome::Stored);
    assert_eq!(article.last_good_rev_id, 100);

    let small = "x".repeat(50);
    let outcome = article.analyse_revision(make_input(101, &small));
    assert_eq!(
        outcome,
        RevisionOutcome::Vandalism(VandalismReason::LengthShrink)
    );
    assert!(article.spam_hashes.contains(&hash_md5(&small)));
    assert_eq!(article.last_good_rev_id, 100);
    assert!(!article.revisions.contains_key(&101));
}

#[test]
fn analyse_revision_good_faith_move_bypasses_length_shrink() {
    let mut article = Article::new("Test");
    article.revisions.insert(
        100,
        Revision {
            id: 100,
            length: 1500,
            ..Default::default()
        },
    );
    article.last_good_rev_id = 100;

    let small = "x".repeat(50);
    let input = RevisionInput {
        rev_id: 101,
        timestamp: "2024-01-01T01:00:00Z".into(),
        text: small,
        sha1: None,
        comment: Some("moved content to subarticle".into()),
        minor: true,
        user_id: Some(2),
        user_name: Some("carol".into()),
    };
    let outcome = article.analyse_revision(input);
    assert_eq!(outcome, RevisionOutcome::Stored);
    assert_eq!(article.last_good_rev_id, 101);
}

#[test]
fn analyse_revision_token_density_vandalism_flags_repeated_paste() {
    let mut article = Article::new("Test");
    let spammy = "lorem ipsum dolor sit amet. ".repeat(60);
    let outcome = article.analyse_revision(make_input(100, &spammy));
    assert_eq!(
        outcome,
        RevisionOutcome::Vandalism(VandalismReason::TokenDensity)
    );
    assert_eq!(article.spam_ids, vec![100]);
    assert!(article.revisions.is_empty());
    assert_eq!(article.last_good_rev_id, 0);
}
