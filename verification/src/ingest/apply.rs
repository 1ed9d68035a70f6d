//! Bringing an article up to date with a change.
use crate::cache_miss::{input_of, replayed, revision_input};
use crate::ingest::events::PageEdit;
use crate::mwclient::revisions::{fetched, FetchedView, Revision};
use crate::pipeline::analysed;
use crate::structures::{Article, ArticleView};
use vstd::prelude::*;

verus! {

/// What came of a change.
#[derive(Debug, Clone, Copy, PartialEq, Eq, Structural)]
pub enum ApplyOutcome {
    Applied { applied_revs: usize },
    /// The article is not stored. It is built when it is asked for.
    SnapshotMissing,
    /// The article has this revision or a later one.
    AlreadyAtOrAhead,
}

/// What to do with a change of an article.
#[derive(Debug, Clone, Copy, PartialEq, Eq, Structural)]
pub enum ApplyPlan {
    /// Nothing.
    Skip(ApplyOutcome),
    /// Fetch the revisions after the first, up to the second.
    Fetch(u64, u64),
}

/// Decides what to do with a change: an article that is stored and behind is to be
/// brought up to date.
pub fn plan_apply(article: Option<&Article>, event: &PageEdit) -> (r: ApplyPlan)
    ensures
        r == (match article {
            None => ApplyPlan::Skip(ApplyOutcome::SnapshotMissing),
            Some(a) => if event@.rev_id <= a@.last_good_rev_id {
                ApplyPlan::Skip(ApplyOutcome::AlreadyAtOrAhead)
            } else {
                ApplyPlan::Fetch(a@.last_good_rev_id, event@.rev_id)
            },
        }),
{
    match article {
        None => ApplyPlan::Skip(ApplyOutcome::SnapshotMissing),
        Some(a) => if event.rev_id <= a.last_good_rev_id {
            ApplyPlan::Skip(ApplyOutcome::AlreadyAtOrAhead)
        } else {
            ApplyPlan::Fetch(a.last_good_rev_id, event.rev_id)
        },
    }
}

/// Whether a revision is new to an article that has all up to `last`.
pub open spec fn is_new(r: FetchedView, last: u64) -> bool {
    r.rev_id > last && !r.text_hidden
}

/// The article after the new ones of the revisions from the `k`th on.
pub open spec fn caught_up(a: ArticleView, revs: Seq<FetchedView>, last: u64, k: int) -> ArticleView
    decreases revs.len() - k,
{
    if k < 0 || k >= revs.len() {
        a
    } else if is_new(revs[k], last) {
        caught_up(analysed(a, input_of(revs[k])).0, revs, last, k + 1)
    } else {
        caught_up(a, revs, last, k + 1)
    }
}

/// How many of the revisions from the `k`th on are new.
pub open spec fn new_count(revs: Seq<FetchedView>, last: u64, k: int) -> int
    decreases revs.len() - k,
{
    if k < 0 || k >= revs.len() {
        0
    } else if is_new(revs[k], last) {
        1 + new_count(revs, last, k + 1)
    } else {
        new_count(revs, last, k + 1)
    }
}

/// Analyses the revisions that are new to an article, and says how many were.
pub fn apply_revisions(article: &mut Article, revisions: &[Revision]) -> (r: ApplyOutcome)
    requires
        old(article)@.wf(),
    ensures
        final(article)@ == caught_up(
            old(article)@,
            fetched(revisions@),
            old(article)@.last_good_rev_id,
            0,
        ),
        final(article)@.wf(),
        r matches ApplyOutcome::Applied { applied_revs } && applied_revs == new_count(
            fetched(revisions@),
            old(article)@.last_good_rev_id,
            0,
        ),
{
    let last = article.last_good_rev_id;
    let ghost revs = fetched(revisions@);
    let ghost goal = caught_up(article@, revs, last, 0);
    let n: usize = revisions.len();
    let mut applied: usize = 0;
    let mut k: usize = 0;
    while k < n
        invariant
            n == revisions@.len(),
            k <= n,
            applied <= k,
            revs == fetched(revisions@),
            article@.wf(),
            caught_up(article@, revs, last, k as int) == goal,
            applied + new_count(revs, last, k as int) == new_count(revs, last, 0),
        decreases n - k,
    {
        let rev = &revisions[k];
        proof {
            assert(revs[k as int] == rev@);
        }
        if rev.rev_id > last && !rev.text_hidden {
            let _ = article.analyse_revision(revision_input(rev));
            applied = applied + 1;
        }
        k = k + 1;
    }
    ApplyOutcome::Applied { applied_revs: applied }
}

proof fn lemma_skip(a: ArticleView, revs: Seq<FetchedView>, last: u64, k: int, to: int)
    requires
        0 <= k <= to <= revs.len(),
        forall|i: int| k <= i < to ==> (#[trigger] revs[i]).rev_id <= last,
    ensures
        caught_up(a, revs, last, k) == caught_up(a, revs, last, to),
    decreases to - k,
{
    if k < to {
        assert(revs[k].rev_id <= last);
        lemma_skip(a, revs, last, k + 1, to);
    }
}

proof fn lemma_all_new(
    a: ArticleView,
    first: Seq<FetchedView>,
    rest: Seq<FetchedView>,
    last: u64,
    k: int,
)
    requires
        0 <= k <= rest.len(),
        forall|i: int| 0 <= i < rest.len() ==> (#[trigger] rest[i]).rev_id > last,
    ensures
        caught_up(a, first + rest, last, first.len() + k) == replayed(a, rest, k),
    decreases rest.len() - k,
{
    let all = first + rest;
    if k < rest.len() {
        assert(all[first.len() + k] == rest[k]);
        assert(rest[k].rev_id > last);
        lemma_all_new(a, first, rest, last, k + 1);
        lemma_all_new(analysed(a, input_of(rest[k])).0, first, rest, last, k + 1);
    }
}

/// An article that was built from the first part of a history, and is brought up to
/// date with the whole of it, is the article built from the whole, where its last
/// stored revision parts the two.
pub proof fn applying_is_building(
    a: ArticleView,
    first: Seq<FetchedView>,
    rest: Seq<FetchedView>,
)
    requires
        forall|i: int|
            0 <= i < first.len() ==> (#[trigger] first[i]).rev_id <= replayed(
                a,
                first,
                0,
            ).last_good_rev_id,
        forall|i: int|
            0 <= i < rest.len() ==> (#[trigger] rest[i]).rev_id > replayed(
                a,
                first,
                0,
            ).last_good_rev_id,
    ensures
        ({
            let stored = replayed(a, first, 0);
            caught_up(stored, first + rest, stored.last_good_rev_id, 0) == replayed(
                a,
                first + rest,
                0,
            )
        }),
{
    let stored = replayed(a, first, 0);
    let last = stored.last_good_rev_id;
    let all = first + rest;
    assert forall|i: int| 0 <= i < first.len() implies (#[trigger] all[i]).rev_id <= last by {
        assert(all[i] == first[i]);
    }
    lemma_skip(stored, all, last, 0, first.len() as int);
    lemma_all_new(stored, first, rest, last, 0);
    crate::cache_miss::catching_up_is_building(a, first, rest);
}

/// Bringing an article up to date with revisions that it has changes nothing.
pub proof fn applying_again_changes_nothing(a: ArticleView, revs: Seq<FetchedView>)
    requires
        forall|i: int|
            0 <= i < revs.len() ==> (#[trigger] revs[i]).rev_id <= a.last_good_rev_id,
    ensures
        caught_up(a, revs, a.last_good_rev_id, 0) == a,
{
    lemma_skip(a, revs, a.last_good_rev_id, 0, revs.len() as int);
}

} // verus!
