use wikiwho::cascade::{analyse_paragraphs_in_revision, determine_authorship, ParagraphAnalysis};
use wikiwho::structures::{Article, MatchedSets, Revision};
use wikiwho::tokenize::{hash_md5, split_tokens, tokenize_revision};

fn run_paragraph_cascade(
    article: &mut Article,
    text: &str,
    revision_prev: &Revision,
    revision_curr: &mut Revision,
) -> (ParagraphAnalysis, MatchedSets) {
    let mut matched = MatchedSets::new();
    let analysis = analyse_paragraphs_in_revision(
        article,
        text,
        revision_prev,
        revision_curr,
        &mut matched,
    );
    (analysis, matched)
}

#[test]
fn paragraph_cascade_first_revision_allocates_everything() {
    let mut article = Article::new("Test");
    let revision_prev = Revision::default();
    let mut revision_curr = Revision {
        id: 100,
        ..Default::default()
    };
    let text = "first paragraph here\n\nsecond paragraph here";
    let (analysis, matched) =
        run_paragraph_cascade(&mut article, text, &revision_prev, &mut revision_curr);

    assert_eq!(analysis.unmatched_paragraphs_curr.len(), 2);
    assert_eq!(analysis.matched_paragraphs_prev.len(), 0);
    assert_eq!(analysis.unmatched_paragraphs_prev.len(), 0);
    assert_eq!(article.paragraphs.len(), 2);
    assert_eq!(revision_curr.ordered_paragraphs.len(), 2);
    assert!(matched.paragraphs.is_empty());
    assert!(matched.sentences.is_empty());
    assert!(matched.tokens.is_empty());
}

#[test]
fn paragraph_cascade_drops_empty_paragraphs() {
    let mut article = Article::new("Test");
    let revision_prev = Revision::default();
    let mut revision_curr = Revision {
        id: 100,
        ..Default::default()
    };
    let text = "first\n\n\n\nsecond";
    let (analysis, _) =
        run_paragraph_cascade(&mut article, text, &revision_prev, &mut revision_curr);

    assert_eq!(analysis.unmatched_paragraphs_curr.len(), 2);
    assert_eq!(revision_curr.ordered_paragraphs.len(), 2);
}

#[test]
fn paragraph_cascade_identical_text_matches_prev_with_words() {
    let mut article = Article::new("Test");
    let text = "para1 sentence";

    let hash = hash_md5(text);
    let pid = article.alloc_paragraph(hash.clone(), text.to_string());
    let sentence_norm = split_tokens(text).join(" ");
    let s_hash = hash_md5(&sentence_norm);
    let sid = article.alloc_sentence(s_hash.clone(), sentence_norm);
    let wid_a = article.alloc_word("para1".into(), 100);
    let wid_b = article.alloc_word("sentence".into(), 100);
    article.sentence_mut(sid).words = vec![wid_a, wid_b];
    article
        .paragraph_mut(pid)
        .sentences
        .insert(s_hash.clone(), vec![sid]);
    article.paragraph_mut(pid).ordered_sentences.push(s_hash);
    article.paragraphs_ht.insert(hash.clone(), vec![pid]);

    let mut revision_prev = Revision {
        id: 100,
        ..Default::default()
    };
    revision_prev.paragraphs.insert(hash.clone(), vec![pid]);
    revision_prev.ordered_paragraphs.push(hash.clone());

    let mut revision_curr = Revision {
        id: 101,
        ..Default::default()
    };
    let (analysis, matched) =
        run_paragraph_cascade(&mut article, text, &revision_prev, &mut revision_curr);

    assert_eq!(analysis.matched_paragraphs_prev, vec![pid]);
    assert!(analysis.unmatched_paragraphs_curr.is_empty());
    assert!(analysis.unmatched_paragraphs_prev.is_empty());
    assert!(matched.paragraphs.contains(&pid));
    assert!(matched.sentences.contains(&sid));
    assert!(matched.tokens.contains(&wid_a));
    assert!(matched.tokens.contains(&wid_b));

    assert_eq!(
        revision_curr.paragraphs.values().first().unwrap(),
        &vec![pid]
    );
    assert_eq!(article.paragraphs.len(), 1);
}

#[test]
fn paragraph_cascade_added_paragraph_is_unmatched_curr() {
    let mut article = Article::new("Test");
    let p1_text = "shared paragraph";
    let p2_text = "newly added paragraph";

    let p1_hash = hash_md5(p1_text);
    let pid1 = article.alloc_paragraph(p1_hash.clone(), p1_text.to_string());
    article.paragraphs_ht.insert(p1_hash.clone(), vec![pid1]);
    let mut revision_prev = Revision {
        id: 100,
        ..Default::default()
    };
    revision_prev
        .paragraphs
        .insert(p1_hash.clone(), vec![pid1]);
    revision_prev.ordered_paragraphs.push(p1_hash.clone());

    let mut revision_curr = Revision {
        id: 101,
        ..Default::default()
    };
    let combined = format!("{p1_text}\n\n{p2_text}");
    let (analysis, _) =
        run_paragraph_cascade(&mut article, &combined, &revision_prev, &mut revision_curr);

    assert_eq!(analysis.matched_paragraphs_prev, vec![pid1]);
    assert_eq!(analysis.unmatched_paragraphs_curr.len(), 1);
    let pid2 = analysis.unmatched_paragraphs_curr[0];
    assert_ne!(pid2, pid1);
    assert_eq!(article.paragraph(pid2).value, p2_text);
    assert_eq!(
        revision_curr.ordered_paragraphs,
        vec![p1_hash.clone(), hash_md5(p2_text)]
    );
}

#[test]
fn paragraph_cascade_removed_paragraph_is_unmatched_prev() {
    let mut article = Article::new("Test");
    let p1_text = "removed paragraph";
    let p2_text = "kept paragraph";
    let p1_hash = hash_md5(p1_text);
    let p2_hash = hash_md5(p2_text);
    let pid1 = article.alloc_paragraph(p1_hash.clone(), p1_text.to_string());
    let pid2 = article.alloc_paragraph(p2_hash.clone(), p2_text.to_string());
    article.paragraphs_ht.insert(p1_hash.clone(), vec![pid1]);
    article.paragraphs_ht.insert(p2_hash.clone(), vec![pid2]);
    let mut revision_prev = Revision {
        id: 100,
        ..Default::default()
    };
    revision_prev
        .paragraphs
        .insert(p1_hash.clone(), vec![pid1]);
    revision_prev
        .paragraphs
        .insert(p2_hash.clone(), vec![pid2]);
    revision_prev.ordered_paragraphs.push(p1_hash);
    revision_prev.ordered_paragraphs.push(p2_hash);

    let mut revision_curr = Revision {
        id: 101,
        ..Default::default()
    };
    let (analysis, _) = run_paragraph_cascade(
        &mut article,
        p2_text,
        &revision_prev,
        &mut revision_curr,
    );

    assert_eq!(analysis.matched_paragraphs_prev, vec![pid2]);
    assert_eq!(analysis.unmatched_paragraphs_prev, vec![pid1]);
    assert!(analysis.unmatched_paragraphs_curr.is_empty());
}

#[test]
fn paragraph_cascade_global_ht_fallback_for_reintroduction() {
    let mut article = Article::new("Test");
    let text = "old paragraph";
    let hash = hash_md5(text);
    let pid = article.alloc_paragraph(hash.clone(), text.to_string());
    article.paragraphs_ht.insert(hash.clone(), vec![pid]);

    let revision_prev = Revision {
        id: 100,
        ..Default::default()
    };
    let mut revision_curr = Revision {
        id: 200,
        ..Default::default()
    };
    let (analysis, matched) =
        run_paragraph_cascade(&mut article, text, &revision_prev, &mut revision_curr);

    assert_eq!(analysis.matched_paragraphs_prev, vec![pid]);
    assert!(analysis.unmatched_paragraphs_curr.is_empty());
    assert!(matched.paragraphs.contains(&pid));
}

#[test]
fn determine_authorship_first_revision_allocates_tokens() {
    let mut article = Article::new("Test");
    let revision_prev = Revision::default();
    let mut revision_curr = Revision {
        id: 100,
        ..Default::default()
    };
    let text = "first paragraph.\n\nsecond paragraph here.";
    let out = determine_authorship(&mut article, text, &revision_prev, &mut revision_curr);

    assert!(!out.vandalism);
    assert_eq!(out.unmatched_paragraphs_curr.len(), 2);
    assert_eq!(out.unmatched_sentences_curr.len(), 2);
    assert_eq!(article.tokens.len(), 7);
    assert_eq!(revision_curr.original_adds, 7);
    for word in &article.tokens {
        assert_eq!(word.origin_rev_id, 100);
        assert_eq!(word.last_rev_id, 100);
    }
    let direct: Vec<String> = tokenize_revision(text);
    let cascade: Vec<String> = article.tokens.iter().map(|w| w.value.clone()).collect();
    assert_eq!(cascade, direct);
}

#[test]
fn determine_authorship_empty_text_is_no_op() {
    let mut article = Article::new("Test");
    let revision_prev = Revision::default();
    let mut revision_curr = Revision {
        id: 100,
        ..Default::default()
    };
    let out = determine_authorship(&mut article, "", &revision_prev, &mut revision_curr);
    assert!(!out.vandalism);
    assert_eq!(article.tokens.len(), 0);
    assert_eq!(article.paragraphs.len(), 0);
    assert_eq!(article.sentences.len(), 0);
}

#[test]
fn paragraph_cascade_duplicate_hash_in_prev_picks_each_in_order() {
    let mut article = Article::new("Test");
    let text = "duplicate";
    let hash = hash_md5(text);
    let pid_a = article.alloc_paragraph(hash.clone(), text.to_string());
    let pid_b = article.alloc_paragraph(hash.clone(), text.to_string());
    article
        .paragraphs_ht
        .insert(hash.clone(), vec![pid_a, pid_b]);
    let mut revision_prev = Revision {
        id: 100,
        ..Default::default()
    };
    revision_prev
        .paragraphs
        .insert(hash.clone(), vec![pid_a, pid_b]);
    revision_prev.ordered_paragraphs.push(hash.clone());
    revision_prev.ordered_paragraphs.push(hash);

    let mut revision_curr = Revision {
        id: 101,
        ..Default::default()
    };
    let combined = format!("{text}\n\n{text}");
    let (analysis, _) =
        run_paragraph_cascade(&mut article, &combined, &revision_prev, &mut revision_curr);

    assert_eq!(analysis.matched_paragraphs_prev.len(), 2);
    assert!(analysis.matched_paragraphs_prev.contains(&pid_a));
    assert!(analysis.matched_paragraphs_prev.contains(&pid_b));
    assert!(analysis.unmatched_paragraphs_curr.is_empty());
    assert!(analysis.unmatched_paragraphs_prev.is_empty());
    assert_eq!(article.paragraphs.len(), 2);
}

#[test]
fn a_first_revision_makes_one_token_after_the_other() {
    let mut article = Article::new("Test");
    let mut revision = Revision {
        id: 7,
        ..Default::default()
    };
    let text = "same words here.\n\nsame words here.\n\nother words! and more";
    let out = determine_authorship(&mut article, text, &Revision::default(), &mut revision);
    assert!(!out.vandalism);
    assert!(out.matched_token_ids.is_empty());
    let words: Vec<String> = article.tokens.iter().map(|w| w.value.clone()).collect();
    assert_eq!(words, tokenize_revision(text));
    assert_eq!(revision.original_adds, words.len());
    for (k, word) in article.tokens.iter().enumerate() {
        assert_eq!(word.token_id, k);
        assert_eq!((word.origin_rev_id, word.last_rev_id), (7, 7));
        assert!(word.inbound.is_empty() && word.outbound.is_empty());
    }
}
