//! What the records of the tokens say of the history: who wrote a token, which revisions
//! removed it, and which put it back.
use crate::cascade::{authorship, recorded};
use crate::lifetimes::{
    are_new, are_turned, is_dated, is_fresh, is_turned, is_unmet, lemma_paragraphs_filed_kept,
    lemma_sentences_filed_kept, lists_tell_what_happened,
};
use crate::outside::lowercase;
use crate::pipeline::{
    analysed, blank_revision, content_hash, has_comment, last_good, paragraphs_filed,
    sentences_filed, InputView,
};
use crate::readback::has_room_for;
use crate::response::{served_fields, token_json, ResponseParameters};
use crate::json::{list_in, Json};
use crate::spam::is_shrink;
use crate::structures::{
    ids_below, lemma_ordered_below, lemma_words_below, ordered_ids, revision_tokens,
    tokens_of_paragraphs, ArticleView, RevisionView,
};
use crate::uniqueness::{
    is_distinct_revision, is_kept, is_unique, lemma_cascade_once, lemma_kept_revision,
    lemma_kept_trans, lemma_revision_below,
};
use vstd::prelude::*;

verus! {

/// Whether the `n`th revision of the history holds the token `y`.
pub open spec fn holds_at(a: ArticleView, n: int, y: usize) -> bool {
    revision_tokens(a, a.revisions[a.ordered_revisions[n]]).contains(y)
}

/// Of the first `n` revisions those that put the token `y` back: each holds it, the one
/// before does not, and it did not write it.
pub open spec fn comebacks(a: ArticleView, y: usize, n: int) -> Seq<u64>
    decreases n,
{
    if n < 2 {
        Seq::empty()
    } else {
        let rev = a.ordered_revisions[n - 1];
        if holds_at(a, n - 1, y) && !holds_at(a, n - 2, y) && rev
            != a.tokens[y as int].origin_rev_id {
            comebacks(a, y, n - 1).push(rev)
        } else {
            comebacks(a, y, n - 1)
        }
    }
}

/// Whether the revision `rev` removed the token `y`: it does not hold it, and the one
/// before does.
pub open spec fn removes(a: ArticleView, y: usize, rev: u64) -> bool {
    exists|n: int|
        1 <= n < a.ordered_revisions.len() && #[trigger] a.ordered_revisions[n] == rev && holds_at(
            a,
            n - 1,
            y,
        ) && !holds_at(a, n, y)
}

/// Whether the `n`th revision is the first that holds the token `y`.
pub open spec fn is_first_holder(a: ArticleView, n: int, y: usize) -> bool {
    &&& 0 <= n < a.ordered_revisions.len()
    &&& holds_at(a, n, y)
    &&& forall|m: int| 0 <= m < n ==> !#[trigger] holds_at(a, m, y)
}

/// Whether the records of the token `y` tell the history: the revision that wrote it is
/// the first that holds it, those that brought it back and those that removed it are
/// listed, and no others.
pub open spec fn is_told_of(a: ArticleView, y: usize) -> bool {
    let w = a.tokens[y as int];
    &&& exists|n: int|
        #[trigger] is_first_holder(a, n, y) && a.ordered_revisions[n] == w.origin_rev_id
    &&& w.inbound == comebacks(a, y, a.ordered_revisions.len() as int)
    &&& forall|rev: u64| w.outbound.contains(rev) <==> #[trigger] removes(a, y, rev)
}

/// What an article keeps from one revision to the next: its revisions are in order, each
/// once, and the records of all tokens tell the history.
pub open spec fn is_chronicle(a: ArticleView) -> bool {
    let order = a.ordered_revisions;
    &&& forall|n: int| 0 <= n < order.len() ==> a.revisions.contains_key(#[trigger] order[n])
    &&& forall|m: int, n: int| 0 <= m < n < order.len() ==> order[m] != order[n]
    &&& order.len() > 0 ==> a.last_good_rev_id == order.last()
    &&& order.len() == 0 ==> a.tokens.len() == 0 && !a.revisions.contains_key(a.last_good_rev_id)
    &&& forall|y: usize| y < a.tokens.len() ==> #[trigger] is_told_of(a, y)
}

/// What the analysis of a revision does to those before it: nothing.
pub(crate) proof fn lemma_analysis_keeps(a: ArticleView, i: InputView)
    requires
        is_unique(a),
        has_room_for(a, i),
    ensures
        ({
            let (e, outcome) = analysed(a, i);
            &&& is_kept(a, e)
            &&& outcome is Stored ==> {
                &&& e.ordered_revisions == a.ordered_revisions.push(i.rev_id)
                &&& e.last_good_rev_id == i.rev_id
                &&& e.revisions == a.revisions.insert(i.rev_id, e.revisions[i.rev_id])
            }
            &&& outcome is Vandalism ==> {
                &&& e.ordered_revisions == a.ordered_revisions
                &&& e.last_good_rev_id == a.last_good_rev_id
                &&& e.revisions == a.revisions
            }
        }),
{
    let text = lowercase(i.text);
    let prev = last_good(a);
    let (e, outcome) = analysed(a, i);
    if !(a.spam_hashes.contains(content_hash(i)) || is_shrink(
        prev.length as int,
        i.text.len() as int,
        has_comment(i),
        i.minor,
    )) {
        if a.revisions.contains_key(a.last_good_rev_id) {
            assert(is_distinct_revision(a, prev));
        }
        let (b, r, out) = authorship(a, text, prev, blank_revision(i));
        lemma_cascade_once(a, text, prev, blank_revision(i));
        if !out.vandalism {
            let c = recorded(b, out, prev.id, i.rev_id);
            let d = paragraphs_filed(c, out.unmatched_paragraphs_curr, 0);
            let f = sentences_filed(d, out.unmatched_sentences_curr, 0);
            lemma_paragraphs_filed_kept(c, out.unmatched_paragraphs_curr, 0);
            lemma_sentences_filed_kept(d, out.unmatched_sentences_curr, 0);
            assert(is_kept(b, c));
            lemma_kept_trans(b, c, d);
            lemma_kept_trans(b, d, f);
            lemma_kept_trans(a, b, f);
        }
    }
}

/// The tokens of a revision are among those of the article.
proof fn lemma_tokens_below(a: ArticleView, r: RevisionView)
    requires
        is_unique(a),
        is_distinct_revision(a, r),
    ensures
        ids_below(revision_tokens(a, r), a.tokens.len() as int),
{
    lemma_revision_below(a, r);
    lemma_paragraph_tokens_below(a, ordered_ids(r.paragraphs, r.ordered_paragraphs));
}

proof fn lemma_paragraph_tokens_below(a: ArticleView, pids: Seq<usize>)
    requires
        is_unique(a),
        ids_below(pids, a.paragraphs.len() as int),
    ensures
        ids_below(tokens_of_paragraphs(a, pids), a.tokens.len() as int),
    decreases pids.len(),
{
    if pids.len() > 0 {
        let less = pids.drop_last();
        assert forall|i: int| 0 <= i < less.len() implies (#[trigger] less[i])
            < a.paragraphs.len() by {
            assert(less[i] == pids[i]);
        }
        lemma_paragraph_tokens_below(a, less);
        assert(pids[pids.len() - 1] < a.paragraphs.len());
        let p = a.paragraphs[pids.last() as int];
        lemma_ordered_below(p.sentences, p.ordered_sentences, 0, a.sentences.len() as int);
        lemma_words_below(
            a.sentences,
            ordered_ids(p.sentences, p.ordered_sentences),
            a.tokens.len() as int,
        );
        let all = tokens_of_paragraphs(a, pids);
        let head = tokens_of_paragraphs(a, less);
        assert forall|i: int| 0 <= i < all.len() implies (#[trigger] all[i]) < a.tokens.len() by {
            if i < head.len() {
                assert(all[i] == head[i]);
            }
        }
    }
}

/// The revisions before hold what they held, and no token that came later.
proof fn lemma_held_before(a: ArticleView, e: ArticleView, rev: u64, n: int, y: usize)
    requires
        is_unique(a),
        is_kept(a, e),
        0 <= n < a.ordered_revisions.len(),
        a.revisions.contains_key(a.ordered_revisions[n]),
        a.ordered_revisions[n] != rev,
        e.ordered_revisions == a.ordered_revisions || e.ordered_revisions
            == a.ordered_revisions.push(rev),
        e.revisions == a.revisions || e.revisions == a.revisions.insert(rev, e.revisions[rev]),
    ensures
        holds_at(e, n, y) == holds_at(a, n, y),
        y >= a.tokens.len() ==> !holds_at(e, n, y),
{
    let r = a.revisions[a.ordered_revisions[n]];
    assert(e.ordered_revisions[n] == a.ordered_revisions[n]);
    assert(e.revisions[a.ordered_revisions[n]] == r);
    assert(is_distinct_revision(a, r));
    lemma_kept_revision(a, e, r);
    lemma_tokens_below(a, r);
    let ids = revision_tokens(a, r);
    if ids.contains(y) {
        let k = choose|k: int| 0 <= k < ids.len() && ids[k] == y;
        assert(ids[k] < a.tokens.len());
    }
}

proof fn lemma_comebacks_kept(a: ArticleView, e: ArticleView, rev: u64, y: usize, n: int)
    requires
        is_unique(a),
        is_kept(a, e),
        0 <= n <= a.ordered_revisions.len(),
        forall|k: int|
            0 <= k < a.ordered_revisions.len() ==> a.revisions.contains_key(
                #[trigger] a.ordered_revisions[k],
            ) && a.ordered_revisions[k] != rev,
        e.ordered_revisions == a.ordered_revisions || e.ordered_revisions
            == a.ordered_revisions.push(rev),
        e.revisions == a.revisions || e.revisions == a.revisions.insert(rev, e.revisions[rev]),
        y < e.tokens.len(),
        y < a.tokens.len() ==> e.tokens[y as int].origin_rev_id
            == a.tokens[y as int].origin_rev_id,
    ensures
        y < a.tokens.len() ==> comebacks(e, y, n) == comebacks(a, y, n),
        y >= a.tokens.len() ==> comebacks(e, y, n) == Seq::<u64>::empty(),
    decreases n,
{
    if n >= 2 {
        lemma_comebacks_kept(a, e, rev, y, n - 1);
        assert(a.revisions.contains_key(a.ordered_revisions[n - 1]));
        assert(a.revisions.contains_key(a.ordered_revisions[n - 2]));
        lemma_held_before(a, e, rev, n - 1, y);
        lemma_held_before(a, e, rev, n - 2, y);
    }
}

proof fn lemma_old_told(a: ArticleView, e: ArticleView, rev: u64, y: usize)
    requires
        is_unique(a),
        is_chronicle(a),
        is_kept(a, e),
        forall|k: int|
            0 <= k < a.ordered_revisions.len() ==> #[trigger] a.ordered_revisions[k] != rev,
        e.ordered_revisions == a.ordered_revisions.push(rev),
        e.last_good_rev_id == rev,
        e.revisions == a.revisions.insert(rev, e.revisions[rev]),
        are_turned(a, e, rev),
        y < a.tokens.len(),
    ensures
        is_told_of(e, y),
{
    let order = a.ordered_revisions;
    let len = order.len() as int;
    let w = a.tokens[y as int];
    let v = e.tokens[y as int];
    assert(is_told_of(a, y));
    assert(len > 0);
    assert(last_good(a) == a.revisions[order[len - 1]]);
    assert(last_good(e) == e.revisions[rev]);
    assert(e.ordered_revisions[len] == rev);
    let was = revision_tokens(a, last_good(a)).contains(y);
    let now = revision_tokens(e, last_good(e)).contains(y);
    assert(is_turned(w, v, was, now, rev));
    assert(was == holds_at(a, len - 1, y));
    assert(now == holds_at(e, len, y));
    let first = choose|n: int|
        #[trigger] is_first_holder(a, n, y) && a.ordered_revisions[n] == w.origin_rev_id;
    assert forall|n: int| 0 <= n < len implies #[trigger] holds_at(e, n, y) == holds_at(
        a,
        n,
        y,
    ) by {
        assert(a.revisions.contains_key(order[n]));
        lemma_held_before(a, e, rev, n, y);
    }
    assert(e.ordered_revisions[first] == order[first]);
    assert(holds_at(e, first, y) == holds_at(a, first, y));
    assert(is_first_holder(e, first, y)) by {
        assert forall|m: int| 0 <= m < first implies !#[trigger] holds_at(e, m, y) by {
            assert(!holds_at(a, m, y));
        }
    }
    assert(v.origin_rev_id == w.origin_rev_id);
    lemma_comebacks_kept(a, e, rev, y, len);
    assert(holds_at(e, len - 1, y) == holds_at(a, len - 1, y));
    assert(order[first] != rev);
    assert(comebacks(e, y, len + 1) == v.inbound) by {
        assert(e.ordered_revisions[len + 1 - 1] == rev);
        if len == 1 {
            // The one revision before wrote every token.
            assert(first == 0);
            assert(holds_at(a, 0, y));
            assert(was);
        }
    }
    assert forall|x: u64| v.outbound.contains(x) <==> #[trigger] removes(e, y, x) by {
        assert(w.outbound.contains(x) <==> removes(a, y, x));
        if removes(a, y, x) {
            let n = choose|n: int|
                1 <= n < order.len() && #[trigger] order[n] == x && holds_at(a, n - 1, y)
                    && !holds_at(a, n, y);
            assert(e.ordered_revisions[n] == x);
            assert(holds_at(e, n - 1, y) && !holds_at(e, n, y));
            let k = choose|k: int| 0 <= k < w.outbound.len() && w.outbound[k] == x;
            assert(v.outbound[k] == x);
        }
        if was && !now && x == rev {
            assert(e.ordered_revisions[len] == rev);
            assert(holds_at(e, len - 1, y) && !holds_at(e, len, y));
            assert(removes(e, y, x));
            assert(v.outbound[w.outbound.len() as int] == rev);
        }
        if removes(e, y, x) {
            let n = choose|n: int|
                1 <= n < e.ordered_revisions.len() && #[trigger] e.ordered_revisions[n] == x
                    && holds_at(e, n - 1, y) && !holds_at(e, n, y);
            assert(holds_at(e, n - 1, y) == holds_at(a, n - 1, y));
            if n < len {
                assert(order[n] == x);
                assert(holds_at(a, n - 1, y) && !holds_at(a, n, y));
                assert(removes(a, y, x));
            } else {
                assert(was && !now && x == rev);
            }
        }
        if v.outbound.contains(x) {
            let k = choose|k: int| 0 <= k < v.outbound.len() && v.outbound[k] == x;
            if k < w.outbound.len() {
                assert(w.outbound[k] == x);
            } else {
                assert(was && !now && x == rev);
            }
        }
    }
}

proof fn lemma_new_told(a: ArticleView, e: ArticleView, rev: u64, y: usize)
    requires
        is_unique(a),
        is_chronicle(a),
        is_kept(a, e),
        forall|k: int|
            0 <= k < a.ordered_revisions.len() ==> #[trigger] a.ordered_revisions[k] != rev,
        e.ordered_revisions == a.ordered_revisions.push(rev),
        e.last_good_rev_id == rev,
        e.revisions == a.revisions.insert(rev, e.revisions[rev]),
        are_new(a, e, rev),
        a.tokens.len() <= y < e.tokens.len(),
    ensures
        is_told_of(e, y),
{
    let order = a.ordered_revisions;
    let len = order.len() as int;
    let v = e.tokens[y as int];
    assert(is_fresh(v, rev));
    assert(e.ordered_revisions[len] == rev);
    assert(last_good(e) == e.revisions[rev]);
    assert(holds_at(e, len, y));
    assert forall|n: int| 0 <= n < len implies !#[trigger] holds_at(e, n, y) by {
        assert(a.revisions.contains_key(order[n]));
        lemma_held_before(a, e, rev, n, y);
    }
    assert(is_first_holder(e, len, y));
    lemma_comebacks_kept(a, e, rev, y, len);
    assert(comebacks(e, y, len + 1) =~= Seq::empty());
    assert(v.inbound =~= comebacks(e, y, e.ordered_revisions.len() as int));
    assert forall|x: u64| v.outbound.contains(x) <==> #[trigger] removes(e, y, x) by {
        if removes(e, y, x) {
            let n = choose|n: int|
                1 <= n < e.ordered_revisions.len() && #[trigger] e.ordered_revisions[n] == x
                    && holds_at(e, n - 1, y) && !holds_at(e, n, y);
            assert(holds_at(e, n - 1, y));
        }
    }
}

/// The records stay true: where they tell the history before a revision they tell it
/// after, vandalism or not. The revision must be a new one.
pub proof fn records_stay_true(a: ArticleView, i: InputView)
    requires
        is_unique(a),
        is_dated(a),
        is_unmet(a, i.rev_id),
        has_room_for(a, i),
        is_chronicle(a),
        !a.revisions.contains_key(i.rev_id),
    ensures
        is_chronicle(analysed(a, i).0),
{
    let (e, outcome) = analysed(a, i);
    let order = a.ordered_revisions;
    lists_tell_what_happened(a, i);
    lemma_analysis_keeps(a, i);
    assert forall|k: int| 0 <= k < order.len() implies #[trigger] order[k] != i.rev_id by {
        assert(a.revisions.contains_key(order[k]));
    }
    if outcome is Stored {
        assert forall|n: int| 0 <= n < e.ordered_revisions.len() implies e.revisions.contains_key(
            #[trigger] e.ordered_revisions[n],
        ) by {
            if n < order.len() {
                assert(e.ordered_revisions[n] == order[n]);
                assert(a.revisions.contains_key(order[n]));
            }
        }
        assert forall|y: usize| y < e.tokens.len() implies #[trigger] is_told_of(e, y) by {
            if y < a.tokens.len() {
                lemma_old_told(a, e, i.rev_id, y);
            } else {
                lemma_new_told(a, e, i.rev_id, y);
            }
        }
    } else {
        assert forall|y: usize| y < e.tokens.len() implies #[trigger] is_told_of(e, y) by {
            lemma_still_told(a, e, i.rev_id, y);
        }
    }
}

proof fn lemma_still_told(a: ArticleView, e: ArticleView, rev: u64, y: usize)
    requires
        is_unique(a),
        is_chronicle(a),
        is_kept(a, e),
        forall|k: int|
            0 <= k < a.ordered_revisions.len() ==> #[trigger] a.ordered_revisions[k] != rev,
        e.ordered_revisions == a.ordered_revisions,
        e.revisions == a.revisions,
        e.tokens == a.tokens,
        y < a.tokens.len(),
    ensures
        is_told_of(e, y),
{
    let order = a.ordered_revisions;
    let w = a.tokens[y as int];
    assert(is_told_of(a, y));
    assert forall|n: int| 0 <= n < order.len() implies #[trigger] holds_at(e, n, y) == holds_at(
        a,
        n,
        y,
    ) by {
        assert(a.revisions.contains_key(order[n]));
        lemma_held_before(a, e, rev, n, y);
    }
    let first = choose|n: int|
        #[trigger] is_first_holder(a, n, y) && a.ordered_revisions[n] == w.origin_rev_id;
    assert(holds_at(e, first, y) == holds_at(a, first, y));
    assert(is_first_holder(e, first, y)) by {
        assert forall|m: int| 0 <= m < first implies !#[trigger] holds_at(e, m, y) by {
            assert(!holds_at(a, m, y));
        }
    }
    lemma_comebacks_kept(a, e, rev, y, order.len() as int);
    assert forall|x: u64| w.outbound.contains(x) <==> #[trigger] removes(e, y, x) by {
        assert(w.outbound.contains(x) <==> removes(a, y, x));
        if removes(a, y, x) {
            let n = choose|n: int|
                1 <= n < order.len() && #[trigger] order[n] == x && holds_at(a, n - 1, y)
                    && !holds_at(a, n, y);
            assert(e.ordered_revisions[n] == x);
            assert(holds_at(e, n - 1, y) && !holds_at(e, n, y));
        }
        if removes(e, y, x) {
            let n = choose|n: int|
                1 <= n < order.len() && #[trigger] e.ordered_revisions[n] == x && holds_at(
                    e,
                    n - 1,
                    y,
                ) && !holds_at(e, n, y);
            assert(order[n] == x);
            assert(holds_at(a, n - 1, y) == holds_at(e, n - 1, y));
            assert(holds_at(a, n, y) == holds_at(e, n, y));
        }
    }
}

/// A served token tells the history: under `in` are the revisions that put it back, in
/// order, under `out` those that removed it, and under `o_rev_id` and `editor` the
/// revision that is the first to hold it, and who made it.
pub proof fn served_tokens_tell_history(a: ArticleView, y: usize, p: ResponseParameters)
    requires
        is_chronicle(a),
        y < a.tokens.len(),
    ensures
        ({
            let t = token_json(a, y, p);
            let back = comebacks(a, y, a.ordered_revisions.len() as int);
            let gone = list_in(t.field("out"@));
            let listed = list_in(t.field("in"@));
            &&& p.inbound ==> listed is Some && listed->0.len() == back.len() && forall|k: int|
                0 <= k < back.len() ==> #[trigger] listed->0[k] == Json::Number(back[k] as int)
            &&& p.outbound ==> gone is Some && forall|rev: u64|
                gone->0.contains(Json::Number(rev as int)) <==> #[trigger] removes(a, y, rev)
            &&& p.o_rev_id ==> exists|n: int|
                #[trigger] is_first_holder(a, n, y) && t.field("o_rev_id"@) == Some(
                    Json::Number(a.ordered_revisions[n] as int),
                )
            &&& p.editor ==> exists|n: int|
                #[trigger] is_first_holder(a, n, y) && t.field("editor"@) == Some(
                    Json::Text(a.revisions[a.ordered_revisions[n]].editor),
                )
        }),
{
    let w = a.tokens[y as int];
    let t = token_json(a, y, p);
    served_fields(a, y, p);
    assert(is_told_of(a, y));
    let n = choose|n: int|
        #[trigger] is_first_holder(a, n, y) && a.ordered_revisions[n] == w.origin_rev_id;
    assert(a.revisions.contains_key(a.ordered_revisions[n]));
    if p.outbound {
        let gone = list_in(t.field("out"@))->0;
        assert forall|rev: u64|
            gone.contains(Json::Number(rev as int)) <==> #[trigger] removes(a, y, rev) by {
            assert(w.outbound.contains(rev) <==> removes(a, y, rev));
            if gone.contains(Json::Number(rev as int)) {
                let k = choose|k: int| 0 <= k < gone.len() && gone[k] == Json::Number(rev as int);
                assert(gone[k] == Json::Number(w.outbound[k] as int));
                assert(w.outbound[k] == rev);
            }
            if w.outbound.contains(rev) {
                let k = choose|k: int| 0 <= k < w.outbound.len() && w.outbound[k] == rev;
                assert(gone[k] == Json::Number(rev as int));
            }
        }
    }
}

} // verus!
