//! Building an article from the history that a wiki hands out.
use crate::lifetimes::{are_new, are_turned, is_dated, is_unmet, lists_tell_what_happened};
use crate::mwclient::revisions::{fetched, FetchedView, Revision};
use crate::outside::lowercase;
use crate::pipeline::{analysed, opt_text, InputView, RevisionInput, RevisionOutcome};
use crate::records::{is_chronicle, lemma_analysis_keeps, records_stay_true};
use crate::readback::{
    has_room_for, is_filed_of, is_readable, lemma_holds_text, read_back, stored_text_reads_back,
    tells_apart, text_tokens,
};
use crate::reuse::{everything_stays_found, is_catalogue};
use crate::structures::{empty_article, Article, ArticleView};
use crate::uniqueness::{is_unique, tokens_occur_once};
use vstd::prelude::*;

verus! {

/// A fetched revision as it goes into the analysis.
pub open spec fn input_of(r: FetchedView) -> InputView {
    InputView {
        rev_id: r.rev_id,
        timestamp: r.timestamp,
        text: r.text,
        sha1: r.sha1,
        comment: r.comment,
        minor: r.minor,
        user_id: r.user_id,
        user_name: r.user_name,
    }
}

/// The article after the revisions from the `k`th on. Those whose text is hidden
/// are left out.
pub open spec fn replayed(a: ArticleView, revs: Seq<FetchedView>, k: int) -> ArticleView
    decreases revs.len() - k,
{
    if k < 0 || k >= revs.len() {
        a
    } else if revs[k].text_hidden {
        replayed(a, revs, k + 1)
    } else {
        replayed(analysed(a, input_of(revs[k])).0, revs, k + 1)
    }
}

/// An article of which nothing but the title and the page is known.
pub open spec fn untouched_article(title: Seq<char>, page_id: u64) -> ArticleView {
    ArticleView { page_id: Some(page_id), ..empty_article(title) }
}

/// A text that may be missing, copied.
fn copy_text(s: &Option<String>) -> (r: Option<String>)
    ensures
        opt_text(r) == opt_text(*s),
{
    match s {
        Some(v) => Some(v.clone()),
        None => None,
    }
}

/// A fetched revision as it goes into the analysis.
pub fn revision_input(rev: &Revision) -> (r: RevisionInput)
    ensures
        r@ == input_of(rev@),
{
    RevisionInput {
        rev_id: rev.rev_id,
        timestamp: rev.timestamp.clone(),
        text: rev.text.clone(),
        sha1: copy_text(&rev.sha1),
        comment: copy_text(&rev.comment),
        minor: rev.minor,
        user_id: rev.user_id,
        user_name: copy_text(&rev.user_name),
    }
}

/// Analyses the revisions of a history one after the other, the oldest first.
pub fn replay_revisions(article: &mut Article, revisions: &[Revision])
    requires
        old(article)@.wf(),
    ensures
        final(article)@ == replayed(old(article)@, fetched(revisions@), 0),
        final(article)@.wf(),
{
    let ghost revs = fetched(revisions@);
    let ghost goal = replayed(article@, revs, 0);
    let mut k: usize = 0;
    while k < revisions.len()
        invariant
            k <= revisions@.len(),
            revs == fetched(revisions@),
            article@.wf(),
            replayed(article@, revs, k as int) == goal,
        decreases revisions@.len() - k,
    {
        let rev = &revisions[k];
        proof {
            assert(revs[k as int] == rev@);
        }
        if !rev.text_hidden {
            let _ = article.analyse_revision(revision_input(rev));
        }
        k = k + 1;
    }
}

/// Builds an article from its history, the oldest revision first.
pub fn build_article_from_revisions(title: &str, page_id: u64, revisions: &[Revision]) -> (r: Article)
    ensures
        r@ == replayed(untouched_article(title@, page_id), fetched(revisions@), 0),
        r@.wf(),
{
    let mut article = Article::new(title);
    article.page_id = Some(page_id);
    proof {
        assert(article@ =~= untouched_article(title@, page_id));
    }
    replay_revisions(&mut article, revisions);
    article
}

/// Adding to a history is the same as building it in one go: an article built from
/// the first revisions and brought up to date with the others is the one built from
/// all.
pub proof fn catching_up_is_building(a: ArticleView, first: Seq<FetchedView>, rest: Seq<FetchedView>)
    ensures
        replayed(a, first + rest, 0) == replayed(replayed(a, first, 0), rest, 0),
{
    lemma_replay_split(a, first, rest, 0);
}

proof fn lemma_replay_split(
    a: ArticleView,
    first: Seq<FetchedView>,
    rest: Seq<FetchedView>,
    k: int,
)
    requires
        0 <= k <= first.len(),
    ensures
        replayed(a, first + rest, k) == replayed(replayed(a, first, k), rest, 0),
    decreases first.len() - k,
{
    let all = first + rest;
    if k < first.len() {
        assert(all[k] == first[k]);
        if first[k].text_hidden {
            lemma_replay_split(a, first, rest, k + 1);
        } else {
            lemma_replay_split(analysed(a, input_of(first[k])).0, first, rest, k + 1);
        }
    } else {
        lemma_replay_shift(a, first, rest, 0);
    }
}

proof fn lemma_replay_shift(
    a: ArticleView,
    first: Seq<FetchedView>,
    rest: Seq<FetchedView>,
    k: int,
)
    requires
        0 <= k <= rest.len(),
    ensures
        replayed(a, first + rest, first.len() + k) == replayed(a, rest, k),
    decreases rest.len() - k,
{
    let all = first + rest;
    if k < rest.len() {
        assert(all[first.len() + k] == rest[k]);
        lemma_replay_shift(a, first, rest, k + 1);
        lemma_replay_shift(analysed(a, input_of(rest[k])).0, first, rest, k + 1);
    }
}

/// All that is filed of the revisions of a history whose text is not hidden.
pub open spec fn filed_texts(revs: Seq<FetchedView>) -> Set<Seq<char>> {
    Set::new(
        |v: Seq<char>|
            exists|k: int|
                0 <= k < revs.len() && !(#[trigger] revs[k]).text_hidden && is_filed_of(
                    lowercase(revs[k].text),
                    v,
                ),
    )
}

/// The article that the first `k` revisions of a history make.
pub open spec fn built(title: Seq<char>, page_id: u64, revs: Seq<FetchedView>, k: int) -> ArticleView {
    replayed(untouched_article(title, page_id), revs.take(k), 0)
}

/// Whether everything that the history adds gets an id of its own.
pub open spec fn history_has_room(title: Seq<char>, page_id: u64, revs: Seq<FetchedView>) -> bool {
    forall|k: int|
        0 <= k < revs.len() && !(#[trigger] revs[k]).text_hidden ==> has_room_for(
            built(title, page_id, revs, k),
            input_of(revs[k]),
        )
}

proof fn lemma_built_next(title: Seq<char>, page_id: u64, revs: Seq<FetchedView>, k: int)
    requires
        0 <= k < revs.len(),
    ensures
        built(title, page_id, revs, k + 1) == if revs[k].text_hidden {
            built(title, page_id, revs, k)
        } else {
            analysed(built(title, page_id, revs, k), input_of(revs[k])).0
        },
{
    let a = untouched_article(title, page_id);
    let last = seq![revs[k]];
    assert(revs.take(k + 1) =~= revs.take(k) + last);
    catching_up_is_building(a, revs.take(k), last);
    let b = built(title, page_id, revs, k);
    assert(last[0] == revs[k]);
    if revs[k].text_hidden {
        assert(replayed(b, last, 1) == b);
    } else {
        let c = analysed(b, input_of(revs[k])).0;
        assert(replayed(c, last, 1) == c);
    }
}

proof fn lemma_built_readable(title: Seq<char>, page_id: u64, revs: Seq<FetchedView>, k: int)
    requires
        tells_apart(filed_texts(revs)),
        history_has_room(title, page_id, revs),
        0 <= k <= revs.len(),
    ensures
        is_readable(built(title, page_id, revs, k), filed_texts(revs)),
    decreases k,
{
    if k > 0 {
        lemma_built_readable(title, page_id, revs, k - 1);
        lemma_built_next(title, page_id, revs, k - 1);
        if !revs[k - 1].text_hidden {
            lemma_step_reads(title, page_id, revs, k - 1);
        }
    } else {
        assert(revs.take(0) =~= Seq::<FetchedView>::empty());
    }
}

proof fn lemma_step_reads(title: Seq<char>, page_id: u64, revs: Seq<FetchedView>, k: int)
    requires
        tells_apart(filed_texts(revs)),
        history_has_room(title, page_id, revs),
        0 <= k < revs.len(),
        !revs[k].text_hidden,
        is_readable(built(title, page_id, revs, k), filed_texts(revs)),
    ensures
        ({
            let t = filed_texts(revs);
            let a = built(title, page_id, revs, k);
            let i = input_of(revs[k]);
            let (b, outcome) = analysed(a, i);
            &&& is_readable(b, t)
            &&& outcome is Stored ==> read_back(b, i.rev_id) == text_tokens(i.text)
            &&& forall|id: u64| #[trigger]
                a.revisions.contains_key(id) && (outcome is Stored ==> id != i.rev_id)
                    ==> b.revisions.contains_key(id) && read_back(b, id) == read_back(a, id)
        }),
{
    let t = filed_texts(revs);
    let text = lowercase(revs[k].text);
    assert forall|v: Seq<char>| is_filed_of(text, v) implies #[trigger] t.contains(v) by {}
    lemma_holds_text(t, text);
    stored_text_reads_back(built(title, page_id, revs, k), input_of(revs[k]), t);
}

proof fn lemma_kept_on(
    title: Seq<char>,
    page_id: u64,
    revs: Seq<FetchedView>,
    id: u64,
    from: int,
    to: int,
)
    requires
        tells_apart(filed_texts(revs)),
        history_has_room(title, page_id, revs),
        0 <= from <= to <= revs.len(),
        built(title, page_id, revs, from).revisions.contains_key(id),
        forall|j: int| from <= j < to ==> (#[trigger] revs[j]).rev_id != id,
    ensures
        built(title, page_id, revs, to).revisions.contains_key(id),
        read_back(built(title, page_id, revs, to), id) == read_back(
            built(title, page_id, revs, from),
            id,
        ),
    decreases to - from,
{
    if from < to {
        lemma_kept_on(title, page_id, revs, id, from, to - 1);
        lemma_built_readable(title, page_id, revs, to - 1);
        lemma_built_next(title, page_id, revs, to - 1);
        if !revs[to - 1].text_hidden {
            lemma_step_reads(title, page_id, revs, to - 1);
        }
    }
}

/// Every revision of a history that is stored reads back, in the article built from
/// the whole history, as the tokens of its text. This holds as long as the digests
/// tell the texts filed apart; `k` is the revision, and none after it has its id.
pub proof fn history_reads_back(
    title: Seq<char>,
    page_id: u64,
    revs: Seq<FetchedView>,
    k: int,
)
    requires
        tells_apart(filed_texts(revs)),
        history_has_room(title, page_id, revs),
        0 <= k < revs.len(),
        !revs[k].text_hidden,
        analysed(built(title, page_id, revs, k), input_of(revs[k])).1 is Stored,
        forall|j: int| k < j < revs.len() ==> (#[trigger] revs[j]).rev_id != revs[k].rev_id,
    ensures
        ({
            let a = replayed(untouched_article(title, page_id), revs, 0);
            &&& a.revisions.contains_key(revs[k].rev_id)
            &&& read_back(a, revs[k].rev_id) == text_tokens(revs[k].text)
        }),
{
    lemma_built_readable(title, page_id, revs, k);
    lemma_step_reads(title, page_id, revs, k);
    lemma_built_next(title, page_id, revs, k);
    assert(revs.take(revs.len() as int) =~= revs);
    lemma_kept_on(title, page_id, revs, revs[k].rev_id, k + 1, revs.len() as int);
}

proof fn lemma_built_unique(title: Seq<char>, page_id: u64, revs: Seq<FetchedView>, k: int)
    requires
        history_has_room(title, page_id, revs),
        0 <= k <= revs.len(),
    ensures
        is_unique(built(title, page_id, revs, k)),
    decreases k,
{
    if k > 0 {
        lemma_built_unique(title, page_id, revs, k - 1);
        lemma_built_next(title, page_id, revs, k - 1);
        if !revs[k - 1].text_hidden {
            tokens_occur_once(built(title, page_id, revs, k - 1), input_of(revs[k - 1]));
        }
    } else {
        assert(revs.take(0) =~= Seq::<FetchedView>::empty());
    }
}

/// In an article built from a history no revision holds a token twice.
pub proof fn built_revisions_are_unique(title: Seq<char>, page_id: u64, revs: Seq<FetchedView>)
    requires
        history_has_room(title, page_id, revs),
    ensures
        is_unique(replayed(untouched_article(title, page_id), revs, 0)),
{
    lemma_built_unique(title, page_id, revs, revs.len() as int);
    assert(revs.take(revs.len() as int) =~= revs);
}

/// The ids of the first `k` revisions of a history.
pub open spec fn first_ids(revs: Seq<FetchedView>, k: int) -> Set<u64> {
    Set::new(|id: u64| exists|j: int| 0 <= j < k && (#[trigger] revs[j]).rev_id == id)
}

/// Whether the tokens have met none but the revisions `ids`.
pub open spec fn has_met_only(a: ArticleView, ids: Set<u64>) -> bool {
    forall|y: int|
        0 <= y < a.tokens.len() ==> {
            let w = #[trigger] a.tokens[y];
            &&& ids.contains(w.last_rev_id)
            &&& forall|n: int|
                0 <= n < w.outbound.len() ==> ids.contains(#[trigger] w.outbound[n])
        }
}

proof fn lemma_met_next(a: ArticleView, e: ArticleView, ids: Set<u64>, rev: u64)
    requires
        has_met_only(a, ids),
        are_turned(a, e, rev),
        are_new(a, e, rev),
    ensures
        has_met_only(e, ids.insert(rev)),
{
    let all = ids.insert(rev);
    assert forall|y: int| 0 <= y < e.tokens.len() implies {
        let w = #[trigger] e.tokens[y];
        &&& all.contains(w.last_rev_id)
        &&& forall|n: int| 0 <= n < w.outbound.len() ==> all.contains(#[trigger] w.outbound[n])
    } by {
        let id = y as usize;
        assert(e.tokens[id as int] == e.tokens[y]);
        if y < a.tokens.len() {
            let w = a.tokens[y];
            let v = e.tokens[y];
            assert(ids.contains(w.last_rev_id));
            assert forall|n: int| 0 <= n < v.outbound.len() implies all.contains(
                #[trigger] v.outbound[n],
            ) by {
                if n < w.outbound.len() {
                    assert(v.outbound[n] == w.outbound[n]);
                } else {
                    assert(v.outbound[n] == rev);
                }
            }
        }
    }
}

proof fn lemma_first_ids(revs: Seq<FetchedView>, k: int)
    requires
        0 <= k < revs.len(),
    ensures
        first_ids(revs, k + 1) == first_ids(revs, k).insert(revs[k].rev_id),
{
    let ids = first_ids(revs, k);
    let all = first_ids(revs, k + 1);
    assert forall|id: u64| ids.insert(revs[k].rev_id).contains(id) implies all.contains(id) by {
        if id != revs[k].rev_id {
            let j = choose|j: int| 0 <= j < k && (#[trigger] revs[j]).rev_id == id;
            assert(revs[j].rev_id == id);
        }
    }
    assert(all =~= ids.insert(revs[k].rev_id));
}

proof fn lemma_built_dated(title: Seq<char>, page_id: u64, revs: Seq<FetchedView>, k: int)
    requires
        history_has_room(title, page_id, revs),
        0 <= k <= revs.len(),
        forall|i: int, j: int|
            0 <= i < j < revs.len() ==> (#[trigger] revs[i]).rev_id != (
            #[trigger] revs[j]).rev_id,
    ensures
        is_dated(built(title, page_id, revs, k)),
        has_met_only(built(title, page_id, revs, k), first_ids(revs, k)),
    decreases k,
{
    if k > 0 {
        let a = built(title, page_id, revs, k - 1);
        let ids = first_ids(revs, k - 1);
        let rev = revs[k - 1].rev_id;
        lemma_built_dated(title, page_id, revs, k - 1);
        lemma_built_next(title, page_id, revs, k - 1);
        lemma_first_ids(revs, k - 1);
        if !revs[k - 1].text_hidden {
            let e = analysed(a, input_of(revs[k - 1])).0;
            lemma_unmet(title, page_id, revs, k - 1);
            lemma_built_unique(title, page_id, revs, k - 1);
            lists_tell_what_happened(a, input_of(revs[k - 1]));
            if analysed(a, input_of(revs[k - 1])).1 is Stored {
                lemma_met_next(a, e, ids, rev);
            }
        }
    } else {
        assert(revs.take(0) =~= Seq::<FetchedView>::empty());
    }
}

proof fn lemma_unmet(title: Seq<char>, page_id: u64, revs: Seq<FetchedView>, k: int)
    requires
        0 <= k < revs.len(),
        has_met_only(built(title, page_id, revs, k), first_ids(revs, k)),
        forall|i: int, j: int|
            0 <= i < j < revs.len() ==> (#[trigger] revs[i]).rev_id != (
            #[trigger] revs[j]).rev_id,
    ensures
        is_unmet(built(title, page_id, revs, k), revs[k].rev_id),
{
    let a = built(title, page_id, revs, k);
    let rev = revs[k].rev_id;
    assert(!first_ids(revs, k).contains(rev));
    assert forall|y: int| 0 <= y < a.tokens.len() implies (#[trigger] a.tokens[y]).last_rev_id
        != rev && !a.tokens[y].outbound.contains(rev) by {
        let w = a.tokens[y];
        assert(first_ids(revs, k).contains(w.last_rev_id));
        if w.outbound.contains(rev) {
            let n = choose|n: int| 0 <= n < w.outbound.len() && w.outbound[n] == rev;
            assert(first_ids(revs, k).contains(w.outbound[n]));
        }
    }
}

/// Each revision of a history, given that no two have the same id, notes in every
/// token that the article then has whether it removed it, put it back, or wrote it.
pub proof fn history_is_told(title: Seq<char>, page_id: u64, revs: Seq<FetchedView>, k: int)
    requires
        history_has_room(title, page_id, revs),
        0 <= k < revs.len(),
        !revs[k].text_hidden,
        forall|i: int, j: int|
            0 <= i < j < revs.len() ==> (#[trigger] revs[i]).rev_id != (
            #[trigger] revs[j]).rev_id,
    ensures
        ({
            let a = built(title, page_id, revs, k);
            let e = built(title, page_id, revs, k + 1);
            &&& is_dated(a)
            &&& match analysed(a, input_of(revs[k])).1 {
                RevisionOutcome::Stored => are_turned(a, e, revs[k].rev_id) && are_new(
                    a,
                    e,
                    revs[k].rev_id,
                ),
                RevisionOutcome::Vandalism(_) => e.tokens == a.tokens,
            }
        }),
{
    lemma_built_dated(title, page_id, revs, k);
    lemma_built_next(title, page_id, revs, k);
    lemma_unmet(title, page_id, revs, k);
    lemma_built_unique(title, page_id, revs, k);
    lists_tell_what_happened(built(title, page_id, revs, k), input_of(revs[k]));
}

proof fn lemma_built_recorded(title: Seq<char>, page_id: u64, revs: Seq<FetchedView>, k: int)
    requires
        history_has_room(title, page_id, revs),
        0 <= k <= revs.len(),
        forall|i: int, j: int|
            0 <= i < j < revs.len() ==> (#[trigger] revs[i]).rev_id != (
            #[trigger] revs[j]).rev_id,
    ensures
        is_chronicle(built(title, page_id, revs, k)),
        forall|id: u64| #[trigger]
            built(title, page_id, revs, k).revisions.contains_key(id) ==> first_ids(
                revs,
                k,
            ).contains(id),
    decreases k,
{
    if k > 0 {
        let a = built(title, page_id, revs, k - 1);
        let rev = revs[k - 1].rev_id;
        lemma_built_recorded(title, page_id, revs, k - 1);
        lemma_built_next(title, page_id, revs, k - 1);
        lemma_first_ids(revs, k - 1);
        if !revs[k - 1].text_hidden {
            let i = input_of(revs[k - 1]);
            lemma_built_dated(title, page_id, revs, k - 1);
            lemma_unmet(title, page_id, revs, k - 1);
            lemma_built_unique(title, page_id, revs, k - 1);
            assert(!first_ids(revs, k - 1).contains(rev));
            records_stay_true(a, i);
            lemma_analysis_keeps(a, i);
        }
    } else {
        assert(revs.take(0) =~= Seq::<FetchedView>::empty());
    }
}

/// In an article built from a history, no two revisions of which have the same id, the
/// records of every token tell the history: the revision that is said to have written it
/// is the first that holds it, and those that put it back or removed it are listed, and
/// no others.
pub proof fn history_is_recorded(title: Seq<char>, page_id: u64, revs: Seq<FetchedView>)
    requires
        history_has_room(title, page_id, revs),
        forall|i: int, j: int|
            0 <= i < j < revs.len() ==> (#[trigger] revs[i]).rev_id != (
            #[trigger] revs[j]).rev_id,
    ensures
        is_chronicle(replayed(untouched_article(title, page_id), revs, 0)),
{
    lemma_built_recorded(title, page_id, revs, revs.len() as int);
    assert(revs.take(revs.len() as int) =~= revs);
}

proof fn lemma_built_found(title: Seq<char>, page_id: u64, revs: Seq<FetchedView>, k: int)
    requires
        history_has_room(title, page_id, revs),
        0 <= k <= revs.len(),
    ensures
        is_catalogue(built(title, page_id, revs, k)),
    decreases k,
{
    if k > 0 {
        lemma_built_found(title, page_id, revs, k - 1);
        lemma_built_next(title, page_id, revs, k - 1);
        if !revs[k - 1].text_hidden {
            lemma_built_unique(title, page_id, revs, k - 1);
            everything_stays_found(built(title, page_id, revs, k - 1), input_of(revs[k - 1]));
        }
    } else {
        assert(revs.take(0) =~= Seq::<FetchedView>::empty());
    }
}

/// In an article built from a history every paragraph and sentence of every stored
/// revision can be found, so that what comes later can reuse it.
pub proof fn built_history_is_found(title: Seq<char>, page_id: u64, revs: Seq<FetchedView>)
    requires
        history_has_room(title, page_id, revs),
    ensures
        is_catalogue(replayed(untouched_article(title, page_id), revs, 0)),
{
    lemma_built_found(title, page_id, revs, revs.len() as int);
    assert(revs.take(revs.len() as int) =~= revs);
}

} // verus!
