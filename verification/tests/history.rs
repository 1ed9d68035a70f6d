use std::collections::HashSet;
use wikiwho::cache_miss::{build_article_from_revisions, replay_revisions};
use wikiwho::ingest::apply::{apply_revisions, plan_apply, ApplyOutcome, ApplyPlan};
use wikiwho::ingest::events::PageEdit;
use wikiwho::mwclient::revisions::Revision;
use wikiwho::pipeline::{RevisionInput, RevisionOutcome, VandalismReason};
use wikiwho::response::{build_rev_content, ResponseParameters};
use wikiwho::structures::{iter_rev_tokens, Article};
use wikiwho::tokenize::tokenize_revision;
use wikiwho::whocolor::{get_whocolor_data, WhoColorError};

fn rev(rev_id: u64, user: u64, text: &str) -> Revision {
    Revision {
        rev_id,
        parent_id: 0,
        timestamp: format!("2024-01-{:02}T00:00:00Z", rev_id % 28 + 1),
        sha1: None,
        comment: None,
        minor: false,
        user_id: Some(user),
        user_name: Some(format!("u{user}")),
        text: text.to_string(),
        text_hidden: false,
    }
}

fn history() -> Vec<Revision> {
    vec![
        rev(1, 10, "Cats are animals. They sleep a lot.\n\nDogs bark."),
        rev(2, 11, "Cats are small animals. They sleep a lot.\n\nDogs bark loudly."),
        rev(3, 12, "Dogs bark loudly.\n\nCats are small animals. They sleep a lot."),
        rev(4, 13, "Cats are small animals."),
        rev(5, 10, "Cats are small animals. They sleep a lot.\n\nDogs bark loudly.\n\nDogs bark loudly."),
        rev(6, 11, "猫は動物です。 [[Cats]] | {{a|b}} <!-- x --> \"q\""),
    ]
}

fn values(article: &Article, rev_id: u64) -> Vec<String> {
    iter_rev_tokens(article, &article.revisions[&rev_id])
        .into_iter()
        .map(|id| article.tokens[id].value.clone())
        .collect()
}

#[test]
fn every_stored_revision_reads_back() {
    let revs = history();
    let article = build_article_from_revisions("T", 1, &revs);
    assert_eq!(article.ordered_revisions, vec![1, 2, 3, 4, 5, 6]);
    for r in &revs {
        assert_eq!(
            values(&article, r.rev_id),
            tokenize_revision(&r.text.to_lowercase()),
            "revision {}",
            r.rev_id
        );
    }
}

#[test]
fn no_token_occurs_twice_in_a_revision() {
    let article = build_article_from_revisions("T", 1, &history());
    for id in &article.ordered_revisions {
        let tokens = iter_rev_tokens(&article, &article.revisions[id]);
        let distinct: HashSet<usize> = tokens.iter().copied().collect();
        assert_eq!(tokens.len(), distinct.len(), "revision {id}");
    }
}

#[test]
fn tokens_belong_to_the_revision_that_wrote_them() {
    let mut article = Article::new("T");
    for r in history() {
        let before = article.tokens.len();
        let outcome = article.analyse_revision(wikiwho::cache_miss::revision_input(&r));
        assert_eq!(outcome, RevisionOutcome::Stored);
        assert!(article.tokens[before..]
            .iter()
            .all(|t| t.origin_rev_id == r.rev_id));
        assert_eq!(
            article.revisions[&r.rev_id].original_adds,
            article.tokens.len() - before
        );
    }
    let cats: Vec<u64> = article
        .tokens
        .iter()
        .filter(|t| t.value == "cats")
        .map(|t| t.origin_rev_id)
        .collect();
    assert_eq!(cats, vec![1]);
}

#[test]
fn removal_and_return_are_noted() {
    let article = build_article_from_revisions("T", 1, &history());
    let sleep = article.tokens.iter().find(|t| t.value == "sleep").unwrap();
    assert_eq!(sleep.origin_rev_id, 1);
    assert_eq!(sleep.outbound, vec![4, 6]);
    assert_eq!(sleep.inbound, vec![5]);
    assert_eq!(sleep.last_rev_id, 5);
}

#[test]
fn the_same_text_again_is_made_of_the_same_tokens() {
    let mut revs = history();
    revs.push(rev(7, 14, &revs[5].text.clone()));
    let article = build_article_from_revisions("T", 1, &revs);
    assert_eq!(
        iter_rev_tokens(&article, &article.revisions[&6]),
        iter_rev_tokens(&article, &article.revisions[&7])
    );
    assert_eq!(article.revisions[&7].original_adds, 0);
}

fn same(a: &Article, b: &Article) -> bool {
    a.ordered_revisions == b.ordered_revisions
        && a.last_good_rev_id == b.last_good_rev_id
        && a.spam_ids == b.spam_ids
        && a.tokens.len() == b.tokens.len()
        && a.tokens.iter().zip(&b.tokens).all(|(x, y)| {
            x.value == y.value
                && x.origin_rev_id == y.origin_rev_id
                && x.inbound == y.inbound
                && x.outbound == y.outbound
        })
        && a.ordered_revisions
            .iter()
            .all(|id| values(a, *id) == values(b, *id))
}

#[test]
fn catching_up_gives_the_article_of_the_whole_history() {
    let revs = history();
    let whole = build_article_from_revisions("T", 1, &revs);
    for k in 0..=revs.len() {
        let mut article = build_article_from_revisions("T", 1, &revs[..k]);
        replay_revisions(&mut article, &revs[k..]);
        assert!(same(&article, &whole), "split at {k}");
    }
}

#[test]
fn applying_gives_the_article_of_the_whole_history() {
    let revs = history();
    let whole = build_article_from_revisions("T", 1, &revs);
    let mut article = build_article_from_revisions("T", 1, &revs[..3]);
    assert_eq!(
        apply_revisions(&mut article, &revs),
        ApplyOutcome::Applied { applied_revs: 3 }
    );
    assert!(same(&article, &whole));
    assert_eq!(
        apply_revisions(&mut article, &revs),
        ApplyOutcome::Applied { applied_revs: 0 }
    );
    assert!(same(&article, &whole));
}

#[test]
fn hidden_revisions_are_not_applied() {
    let mut hidden = rev(9, 1, "secret");
    hidden.text_hidden = true;
    let mut article = build_article_from_revisions("T", 1, &history());
    let before = article.tokens.len();
    assert_eq!(
        apply_revisions(&mut article, &[hidden]),
        ApplyOutcome::Applied { applied_revs: 0 }
    );
    assert_eq!(article.tokens.len(), before);
}

fn edit(page_id: u64, rev_id: u64) -> PageEdit {
    PageEdit {
        language: "en".into(),
        wiki: "enwiki".into(),
        page_id,
        rev_id,
        parent_rev_id: 0,
        title: "T".into(),
        sse_id: None,
    }
}

#[test]
fn snapshot_missing_when_article_not_on_disk() {
    assert_eq!(
        plan_apply(None, &edit(1, 2)),
        ApplyPlan::Skip(ApplyOutcome::SnapshotMissing)
    );
}

#[test]
fn already_at_or_ahead_when_event_rev_in_past() {
    let mut article = Article::new("Demo");
    article.page_id = Some(42);
    article.analyse_revision(RevisionInput {
        rev_id: 100,
        timestamp: "2024-01-01T00:00:00Z".into(),
        text: "Hello world.".into(),
        sha1: None,
        comment: None,
        minor: false,
        user_id: Some(1),
        user_name: Some("alice".into()),
    });
    let skip = ApplyPlan::Skip(ApplyOutcome::AlreadyAtOrAhead);
    assert_eq!(plan_apply(Some(&article), &edit(42, 50)), skip);
    assert_eq!(plan_apply(Some(&article), &edit(42, 100)), skip);
    assert_eq!(
        plan_apply(Some(&article), &edit(42, 101)),
        ApplyPlan::Fetch(100, 101)
    );
}

#[test]
fn vandalism_leaves_the_history_as_it_was() {
    let mut article = build_article_from_revisions("T", 1, &history());
    let before: Vec<Vec<String>> = (1..=6).map(|id| values(&article, id)).collect();
    let tokens = article.tokens.len();
    let spam = "spam ".repeat(300);
    let outcome = article.analyse_revision(wikiwho::cache_miss::revision_input(&rev(8, 9, &spam)));
    assert_eq!(
        outcome,
        RevisionOutcome::Vandalism(VandalismReason::TokenDensity)
    );
    assert_eq!(article.spam_ids, vec![8]);
    assert_eq!(article.tokens.len(), tokens);
    let after: Vec<Vec<String>> = (1..=6).map(|id| values(&article, id)).collect();
    assert_eq!(before, after);
    let again = article.analyse_revision(wikiwho::cache_miss::revision_input(&rev(9, 9, &spam)));
    assert_eq!(
        again,
        RevisionOutcome::Vandalism(VandalismReason::HashMatch)
    );
}

#[test]
fn an_origin_that_was_dropped_is_an_error() {
    let mut article = build_article_from_revisions("T", 1, &history());
    article.revisions.remove(&1);
    article.ordered_revisions.retain(|id| *id != 1);
    let err = get_whocolor_data(&article, 2, 0).unwrap_err();
    assert_eq!(err, WhoColorError::OrphanOriginRevision(1));
    assert_eq!(
        err.message(),
        "token's origin revision 1 is missing from article.revisions"
    );
    assert_eq!(
        WhoColorError::UnknownRevision(7).message(),
        "revision 7 is not present in article (deleted or spam)"
    );
}

#[test]
fn a_range_of_revisions_leaves_out_its_end() {
    let article = build_article_from_revisions("T", 1, &history());
    let all = build_rev_content(&article, &[2, 5], ResponseParameters::none()).unwrap();
    assert_eq!(all.revisions.len(), 3);
    let err = build_rev_content(&article, &[2, 77], ResponseParameters::none()).unwrap_err();
    assert!(err.error.contains("77"));
}
