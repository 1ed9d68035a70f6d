//! When a token was removed and put back: what the analysis of a revision writes
//! into the lists of every token.
use crate::buckets::{all_ids, bucket, with_id, Entries};
use crate::cascade::{
    all_matched, any_matched, authorship, find_paragraph, find_prev, find_sentence, is_dense, lemma_find_prev,
    lemma_not_in_below, lemma_paragraph_steps_grow, lemma_scan_steps_grow,
    lemma_sentence_paragraphs_grow, lemma_sentence_steps_grow, lemma_word_add_grows, lemma_word_level_grows,
    lemma_word_steps_grow, lemma_words_added_grow, normalized, not_in, nothing_matched,
    paragraph_level, paragraph_step, paragraph_steps, paragraph_taken, paragraph_words,
    paragraphs_left, recorded, scan_in_paragraphs, scan_paragraphs,
    scan_sentences, scan_steps, sentence_level, sentence_paragraphs, sentence_pass, sentence_step, sentence_steps,
    sentence_taken, sentence_words, sentences_in, sentences_left, sentences_left_in, step_text, word_added, word_attached,
    word_deleted, word_kept, word_level, word_recorded, word_step, word_steps, word_values,
    words_added, words_held, words_left, words_only, CascadeView, ParagraphState,
    SentenceState, WordContext, WordState,
};
use crate::differ::transcript;
use crate::matcher::count_of;
use crate::outside::{lowercase, md5_hex};
use crate::pipeline::{
    analysed, blank_revision, content_hash, has_comment, last_good, paragraphs_filed,
    sentences_filed, InputView,
};
use crate::spam::is_shrink;
use crate::readback::{
    all_filed, has_room, has_room_for, is_linked, lemma_filed_bucket, lemma_not_in_among,
    lemma_words_are_new, new_ids, text_words, words_go_to_new,
};
use crate::structures::{
    ids_below, lemma_all_ids_below, lemma_ordered_below, lemma_words_below, ordered_ids, revision_tokens, tokens_of_paragraphs, words_of, ArticleView, MatchedView, ParagraphView,
    RevisionView, SentenceView, WordView,
};
use crate::text::trimmed;
use crate::tokenize::{paragraphs_of, sentences_of};
use crate::transcript::Step;
use crate::uniqueness::{
    are_distinct, distinct_paragraph, distinct_sentence, is_distinct_revision, is_kept, is_taken, is_unique, lemma_add_once,
    lemma_among_text, lemma_attach_once, lemma_bucket_takes, lemma_cascade_once, lemma_count_add, lemma_count_found, lemma_find_takes,
    lemma_in_order_more, lemma_kept_paragraphs, lemma_kept_trans, lemma_left_distinct, lemma_paragraph_once, lemma_paragraph_part,
    lemma_paragraphs_take, lemma_pids_distinct, lemma_revision_below, lemma_same_paragraphs,
    lemma_sentence_comes, lemma_sentence_once, lemma_sentences_begin, lemma_sentences_linked,
    lemma_text_among, lemma_text_sentences, lemma_words_begin, lemma_word_comes,
    lemma_words_add, lemma_words_among, lemma_words_part, lemma_words_same, new_id, once,
    paragraphs_once, sentences_once, slots_once, text_sentences, words_once,
};
use vstd::prelude::*;

verus! {

/// Whether what is matched is of `a`, and matched with all its tokens.
spec fn is_matched_whole(a: ArticleView, m: MatchedView) -> bool {
    &&& forall|pid: usize| #[trigger] m.paragraphs.contains(pid) ==> pid < a.paragraphs.len()
    &&& forall|pid: usize, x: usize|
        m.paragraphs.contains(pid) && #[trigger] paragraph_words(a, pid).contains(x)
            ==> m.tokens.contains(x)
    &&& forall|sid: usize| #[trigger] m.sentences.contains(sid) ==> sid < a.sentences.len()
    &&& forall|sid: usize, x: usize|
        m.sentences.contains(sid) && #[trigger] a.sentences[sid as int].words.contains(x)
            ==> m.tokens.contains(x)
}

/// Whether `b` is `a` with more paragraphs.
spec fn has_more_paragraphs(a: ArticleView, b: ArticleView) -> bool {
    &&& b == (ArticleView { paragraphs: b.paragraphs, ..a })
    &&& a.paragraphs.len() <= b.paragraphs.len()
    &&& forall|i: int|
        0 <= i < a.paragraphs.len() ==> #[trigger] b.paragraphs[i] == a.paragraphs[i]
}

/// The tokens of a sentence filed with a paragraph are among those of the paragraph.
proof fn lemma_sentence_among(a: ArticleView, pid: usize, sid: usize, x: usize)
    requires
        all_ids(a.paragraphs[pid as int].sentences).contains(sid),
        a.sentences[sid as int].words.contains(x),
    ensures
        paragraph_words(a, pid).contains(x),
{
    let all = all_ids(a.paragraphs[pid as int].sentences);
    let i = choose|i: int| 0 <= i < all.len() && all[i] == sid;
    lemma_words_part(a.sentences, all, i, x);
    lemma_count_found(a.sentences[sid as int].words, x);
    lemma_count_found(words_of(a.sentences, all), x);
}

/// A search in a bucket keeps what is matched whole, and lists what it takes.
proof fn lemma_scan_keeps(
    a: ArticleView,
    b: ArticleView,
    ids: Seq<usize>,
    k: int,
    m: MatchedView,
    past: Seq<usize>,
)
    requires
        0 <= k,
        is_linked(a),
        has_more_paragraphs(a, b),
        ids_below(ids, a.paragraphs.len() as int),
        ids_below(past, a.paragraphs.len() as int),
        is_matched_whole(a, m),
    ensures
        ({
            let (n, later, found) = scan_paragraphs(b, ids, k, m, past);
            &&& is_matched_whole(a, n)
            &&& ids_below(later, a.paragraphs.len() as int)
            &&& forall|pid: usize| past.contains(pid) ==> #[trigger] later.contains(pid)
            &&& found is Some ==> later.contains(found->0)
        }),
    decreases ids.len() - k,
{
    if k < ids.len() {
        let pid = ids[k];
        assert(b.paragraphs[pid as int] == a.paragraphs[pid as int]);
        let ws = paragraph_words(a, pid);
        let n = scan_paragraphs(b, ids, k, m, past).0;
        let later = past.push(pid);
        assert forall|p: usize| past.contains(p) implies #[trigger] later.contains(p) by {
            let i = choose|i: int| 0 <= i < past.len() && past[i] == p;
            assert(later[i] == p);
        }
        if m.paragraphs.contains(pid) {
            lemma_scan_keeps(a, b, ids, k + 1, m, past);
        } else if !any_matched(ws, m.tokens) {
            let e = a.paragraphs[pid as int].sentences;
            assert(n == paragraph_taken(b, m, pid));
            assert(later[past.len() as int] == pid);
            assert forall|p: usize, x: usize|
                n.paragraphs.contains(p) && #[trigger] paragraph_words(a, p).contains(
                    x,
                ) implies n.tokens.contains(x) by {
                if p == pid {
                    assert(ws.to_set().contains(x));
                }
            }
            assert forall|sid: usize| #[trigger] n.sentences.contains(sid) implies sid
                < a.sentences.len() by {
                if !m.sentences.contains(sid) {
                    let all = all_ids(e);
                    assert(all.to_set().contains(sid));
                    lemma_all_ids_below(e, a.sentences.len() as int);
                    let i = choose|i: int| 0 <= i < all.len() && all[i] == sid;
                    assert(all[i] < a.sentences.len());
                }
            }
            assert forall|sid: usize, x: usize|
                n.sentences.contains(sid) && #[trigger] a.sentences[sid as int].words.contains(
                    x,
                ) implies n.tokens.contains(x) by {
                if !m.sentences.contains(sid) {
                    assert(all_ids(e).to_set().contains(sid));
                    lemma_sentence_among(a, pid, sid, x);
                    assert(ws.to_set().contains(x));
                }
            }
        } else if all_matched(ws, m.tokens) {
            let q = MatchedView { paragraphs: m.paragraphs.insert(pid), ..m };
            assert forall|p: usize, x: usize|
                q.paragraphs.contains(p) && #[trigger] paragraph_words(a, p).contains(
                    x,
                ) implies q.tokens.contains(x) by {
                if p == pid {
                    let i = choose|i: int| 0 <= i < ws.len() && ws[i] == x;
                    assert(m.tokens.contains(ws[i]));
                }
            }
            lemma_scan_keeps(a, b, ids, k + 1, q, later);
        } else {
            lemma_scan_keeps(a, b, ids, k + 1, m, past);
        }
    }
}

proof fn lemma_find_keeps(
    a: ArticleView,
    b: ArticleView,
    prev: RevisionView,
    hash: Seq<char>,
    m: MatchedView,
    past: Seq<usize>,
)
    requires
        is_linked(a),
        has_more_paragraphs(a, b),
        all_filed(a.paragraphs_ht, distinct_paragraph(a)),
        all_filed(prev.paragraphs, distinct_paragraph(a)),
        ids_below(past, a.paragraphs.len() as int),
        is_matched_whole(a, m),
    ensures
        ({
            let (n, later, found) = find_paragraph(b, prev, hash, m, past);
            &&& is_matched_whole(a, n)
            &&& ids_below(later, a.paragraphs.len() as int)
            &&& forall|pid: usize| past.contains(pid) ==> #[trigger] later.contains(pid)
            &&& found is Some ==> later.contains(found->0)
        }),
{
    let near = bucket(prev.paragraphs, hash);
    let far = bucket(b.paragraphs_ht, hash);
    lemma_filed_bucket(prev.paragraphs, hash, distinct_paragraph(a));
    lemma_filed_bucket(a.paragraphs_ht, hash, distinct_paragraph(a));
    assert forall|j: int| 0 <= j < near.len() implies (#[trigger] near[j]) < a.paragraphs.len() by {
        assert(distinct_paragraph(a)(hash, near[j]));
    }
    assert forall|j: int| 0 <= j < far.len() implies (#[trigger] far[j]) < a.paragraphs.len() by {
        assert(distinct_paragraph(a)(hash, far[j]));
    }
    let first = scan_paragraphs(b, near, 0, m, past);
    lemma_scan_keeps(a, b, near, 0, m, past);
    if first.2 is None {
        lemma_scan_keeps(a, b, far, 0, first.0, first.1);
        let later = scan_paragraphs(b, far, 0, first.0, first.1).1;
        assert forall|pid: usize| past.contains(pid) implies #[trigger] later.contains(pid) by {
            assert(first.1.contains(pid));
        }
    }
}

/// The sentences of more paragraphs hold those of fewer.
proof fn lemma_sentences_in_part(a: ArticleView, pids: Seq<usize>, pid: usize, sid: usize)
    requires
        pids.contains(pid),
        all_ids(a.paragraphs[pid as int].sentences).contains(sid),
    ensures
        sentences_in(a, pids).contains(sid),
    decreases pids.len(),
{
    let less = pids.drop_last();
    let head = sentences_in(a, less);
    let last = all_ids(a.paragraphs[pids.last() as int].sentences);
    let all = sentences_in(a, pids);
    if pids.last() == pid {
        let i = choose|i: int| 0 <= i < last.len() && last[i] == sid;
        assert(all[head.len() + i] == sid);
    } else {
        let i = choose|i: int| 0 <= i < pids.len() && pids[i] == pid;
        assert(less[i] == pid);
        lemma_sentences_in_part(a, less, pid, sid);
        let j = choose|j: int| 0 <= j < head.len() && head[j] == sid;
        assert(all[j] == sid);
    }
}

/// The tokens of a listed paragraph are among those of all listed.
proof fn lemma_listed_words(a: ArticleView, pids: Seq<usize>, pid: usize, x: usize)
    requires
        pids.contains(pid),
        paragraph_words(a, pid).contains(x),
    ensures
        words_of(a.sentences, sentences_in(a, pids)).contains(x),
{
    let all = all_ids(a.paragraphs[pid as int].sentences);
    let listed = sentences_in(a, pids);
    assert forall|i: int| 0 <= i < all.len() implies listed.contains(#[trigger] all[i]) by {
        assert(all.contains(all[i]));
        lemma_sentences_in_part(a, pids, pid, all[i]);
    }
    lemma_words_among(a.sentences, all, listed, x);
}

/// More listed paragraphs have more tokens.
proof fn lemma_listed_more(a: ArticleView, s: Seq<usize>, t: Seq<usize>, x: usize)
    requires
        forall|pid: usize| s.contains(pid) ==> #[trigger] t.contains(pid),
        words_of(a.sentences, sentences_in(a, s)).contains(x),
    ensures
        words_of(a.sentences, sentences_in(a, t)).contains(x),
    decreases s.len(),
{
    if s.len() > 0 {
        let less = s.drop_last();
        let last = all_ids(a.paragraphs[s.last() as int].sentences);
        lemma_words_add(a.sentences, sentences_in(a, less), last);
        let head = words_of(a.sentences, sentences_in(a, less));
        let tail = words_of(a.sentences, last);
        lemma_count_found(head + tail, x);
        lemma_count_add(head, tail, x);
        lemma_count_found(head, x);
        lemma_count_found(tail, x);
        if head.contains(x) {
            assert forall|pid: usize| less.contains(pid) implies #[trigger] t.contains(pid) by {
                let i = choose|i: int| 0 <= i < less.len() && less[i] == pid;
                assert(s[i] == pid);
            }
            lemma_listed_more(a, less, t, x);
        } else {
            assert(s[s.len() - 1] == s.last());
            lemma_listed_words(a, t, s.last(), x);
        }
    }
}

/// Whether a paragraph, if it has any token, has one that is matched.
pub(crate) open spec fn paragraph_in_use(a: ArticleView, pid: usize, tokens: Set<usize>) -> bool {
    paragraph_words(a, pid).len() > 0 ==> any_matched(paragraph_words(a, pid), tokens)
}

/// Whether every paragraph filed under the hash of a new one is in use.
pub(crate) open spec fn paragraphs_sought(a: ArticleView, b: ArticleView, tokens: Set<usize>) -> bool {
    forall|i: int, j: int|
        a.paragraphs.len() <= i < b.paragraphs.len() && 0 <= j < bucket(
            a.paragraphs_ht,
            b.paragraphs[i].hash_value,
        ).len() ==> paragraph_in_use(
            a,
            #[trigger] bucket(a.paragraphs_ht, b.paragraphs[i].hash_value)[j],
            tokens,
        )
}

/// Where a search in a bucket finds nothing, all of the bucket is in use.
proof fn lemma_scan_uses(
    a: ArticleView,
    b: ArticleView,
    ids: Seq<usize>,
    k: int,
    m: MatchedView,
    past: Seq<usize>,
)
    requires
        0 <= k,
        has_more_paragraphs(a, b),
        ids_below(ids, a.paragraphs.len() as int),
        is_matched_whole(a, m),
        scan_paragraphs(b, ids, k, m, past).2 is None,
    ensures
        forall|j: int| k <= j < ids.len() ==> paragraph_in_use(a, #[trigger] ids[j], m.tokens),
    decreases ids.len() - k,
{
    if k < ids.len() {
        let pid = ids[k];
        assert(b.paragraphs[pid as int] == a.paragraphs[pid as int]);
        let ws = paragraph_words(a, pid);
        assert(paragraph_words(b, pid) == ws);
        if m.paragraphs.contains(pid) {
            if ws.len() > 0 {
                assert(ws.contains(ws[0]));
                assert(m.tokens.contains(ws[0]));
            }
            lemma_scan_uses(a, b, ids, k + 1, m, past);
        } else if all_matched(ws, m.tokens) {
            let q = MatchedView { paragraphs: m.paragraphs.insert(pid), ..m };
            assert forall|p: usize, x: usize|
                q.paragraphs.contains(p) && #[trigger] paragraph_words(a, p).contains(
                    x,
                ) implies q.tokens.contains(x) by {
                if p == pid {
                    let i = choose|i: int| 0 <= i < ws.len() && ws[i] == x;
                    assert(m.tokens.contains(ws[i]));
                }
            }
            lemma_scan_uses(a, b, ids, k + 1, q, past.push(pid));
        } else {
            lemma_scan_uses(a, b, ids, k + 1, m, past);
        }
        assert(paragraph_in_use(a, ids[k], m.tokens));
    }
}

/// What the paragraph level knows besides: matched tokens are those of the revision,
/// and each comes from a paragraph that is listed; and nothing new could have been
/// reused.
spec fn paragraphs_told(a: ArticleView, s: ParagraphState) -> bool {
    let b = s.article;
    let pids = ordered_ids(s.revision.paragraphs, s.revision.ordered_paragraphs);
    let used = tokens_of_paragraphs(b, pids);
    &&& paragraphs_once(a, s)
    &&& is_matched_whole(a, s.matched)
    &&& ids_below(s.matched_prev, a.paragraphs.len() as int)
    &&& forall|x: usize| #[trigger] s.matched.tokens.contains(x) ==> count_of(used, x) > 0
    &&& forall|x: usize| #[trigger]
        count_of(used, x) > 0 ==> words_of(a.sentences, sentences_in(a, s.matched_prev)).contains(x)
    &&& paragraphs_sought(a, b, s.matched.tokens)
}

proof fn lemma_paragraph_told(a: ArticleView, s: ParagraphState, prev: RevisionView, raw: Seq<char>)
    requires
        is_linked(a),
        all_filed(a.paragraphs_ht, distinct_paragraph(a)),
        all_filed(prev.paragraphs, distinct_paragraph(a)),
        paragraphs_told(a, s),
        trimmed(raw).len() > 0,
        paragraph_step(s, prev, raw).article.paragraphs.len() <= usize::MAX,
    ensures
        paragraphs_told(a, paragraph_step(s, prev, raw)),
{
    let hash = md5_hex(trimmed(raw));
    let r = s.revision;
    let b = s.article;
    let u = paragraph_step(s, prev, raw);
    let c = u.article;
    let (m, past, found) = find_paragraph(b, prev, hash, s.matched, s.matched_prev);
    let pids = ordered_ids(r.paragraphs, r.ordered_paragraphs);
    lemma_paragraph_once(a, s, prev, raw);
    lemma_find_takes(a, b, prev, hash, s.matched, s.matched_prev);
    lemma_find_keeps(a, b, prev, hash, s.matched, s.matched_prev);
    let pid = match found {
        Some(pid) => pid,
        None => b.paragraphs.len() as usize,
    };
    lemma_in_order_more(r.paragraphs, r.ordered_paragraphs, hash, pid);
    let more = ordered_ids(u.revision.paragraphs, u.revision.ordered_paragraphs);
    assert(more.drop_last() =~= pids);
    assert forall|i: int| 0 <= i < b.paragraphs.len() implies #[trigger] c.paragraphs[i]
        == b.paragraphs[i] by {}
    lemma_same_paragraphs(b, c, pids);
    let used = tokens_of_paragraphs(b, pids);
    let here = text_words(c, c.paragraphs[pid as int]);
    let all = tokens_of_paragraphs(c, more);
    assert(all == used + here);
    if found is None {
        let p = c.paragraphs[pid as int];
        assert(p.ordered_sentences =~= Seq::empty());
        assert(ordered_ids(p.sentences, p.ordered_sentences) =~= Seq::<usize>::empty());
        assert(here =~= Seq::<usize>::empty());
    }
    assert forall|x: usize| #[trigger] u.matched.tokens.contains(x) implies count_of(all, x) > 0 by {
        lemma_count_add(used, here, x);
        if !s.matched.tokens.contains(x) {
            let ws = paragraph_words(b, pid);
            assert(ws.to_set().contains(x));
            assert(b.paragraphs[pid as int] == a.paragraphs[pid as int]);
            assert(paragraph_words(a, pid) == ws);
            lemma_among_text(a, pid, x);
        }
    }
    assert forall|x: usize| #[trigger] count_of(all, x) > 0 implies words_of(
        a.sentences,
        sentences_in(a, u.matched_prev),
    ).contains(x) by {
        lemma_count_add(used, here, x);
        if count_of(used, x) > 0 {
            lemma_listed_more(a, s.matched_prev, u.matched_prev, x);
        } else {
            assert(found is Some);
            assert(b.paragraphs[pid as int] == a.paragraphs[pid as int]);
            lemma_text_among(a, pid, x);
            lemma_listed_words(a, u.matched_prev, pid, x);
        }
    }
    lemma_paragraph_sought(a, s, prev, raw);
}

/// A paragraph is new only where none that is filed under its hash is unused.
proof fn lemma_paragraph_sought(
    a: ArticleView,
    s: ParagraphState,
    prev: RevisionView,
    raw: Seq<char>,
)
    requires
        is_linked(a),
        all_filed(a.paragraphs_ht, distinct_paragraph(a)),
        all_filed(prev.paragraphs, distinct_paragraph(a)),
        paragraphs_told(a, s),
        trimmed(raw).len() > 0,
    ensures
        paragraphs_sought(
            a,
            paragraph_step(s, prev, raw).article,
            paragraph_step(s, prev, raw).matched.tokens,
        ),
{
    let hash = md5_hex(trimmed(raw));
    let b = s.article;
    let u = paragraph_step(s, prev, raw);
    let near = bucket(prev.paragraphs, hash);
    let far = bucket(a.paragraphs_ht, hash);
    lemma_filed_bucket(prev.paragraphs, hash, distinct_paragraph(a));
    lemma_filed_bucket(a.paragraphs_ht, hash, distinct_paragraph(a));
    assert forall|j: int| 0 <= j < near.len() implies (#[trigger] near[j]) < a.paragraphs.len() by {
        assert(distinct_paragraph(a)(hash, near[j]));
    }
    assert forall|j: int| 0 <= j < far.len() implies (#[trigger] far[j]) < a.paragraphs.len() by {
        assert(distinct_paragraph(a)(hash, far[j]));
    }
    let (m, past, found) = find_paragraph(b, prev, hash, s.matched, s.matched_prev);
    lemma_find_takes(a, b, prev, hash, s.matched, s.matched_prev);
    assert forall|x: usize| #[trigger] s.matched.tokens.contains(x) implies m.tokens.contains(
        x,
    ) by {}
    if found is None {
        let first = scan_paragraphs(b, near, 0, s.matched, s.matched_prev);
        lemma_scan_keeps(a, b, near, 0, s.matched, s.matched_prev);
        lemma_scan_uses(a, b, far, 0, first.0, first.1);
        lemma_scan_same(b, near, 0, s.matched, s.matched_prev);
    }
    assert forall|i: int, j: int|
        a.paragraphs.len() <= i < u.article.paragraphs.len() && 0 <= j < bucket(
            a.paragraphs_ht,
            u.article.paragraphs[i].hash_value,
        ).len() implies paragraph_in_use(
        a,
        #[trigger] bucket(a.paragraphs_ht, u.article.paragraphs[i].hash_value)[j],
        u.matched.tokens,
    ) by {
        let pid = bucket(a.paragraphs_ht, u.article.paragraphs[i].hash_value)[j];
        if i < b.paragraphs.len() {
            assert(u.article.paragraphs[i] == b.paragraphs[i]);
            assert(bucket(a.paragraphs_ht, b.paragraphs[i].hash_value)[j] == pid);
            assert(paragraph_in_use(a, pid, s.matched.tokens));
        } else {
            assert(u.article.paragraphs[i].hash_value == hash);
            assert(far[j] == pid);
        }
    }
}

/// A search that finds nothing matches nothing.
proof fn lemma_scan_same(
    b: ArticleView,
    ids: Seq<usize>,
    k: int,
    m: MatchedView,
    past: Seq<usize>,
)
    requires
        0 <= k,
    ensures
        scan_paragraphs(b, ids, k, m, past).2 is None ==> scan_paragraphs(
            b,
            ids,
            k,
            m,
            past,
        ).0.tokens == m.tokens,
    decreases ids.len() - k,
{
    if k < ids.len() {
        let pid = ids[k];
        let ws = paragraph_words(b, pid);
        if m.paragraphs.contains(pid) {
            lemma_scan_same(b, ids, k + 1, m, past);
        } else if !any_matched(ws, m.tokens) {
        } else if all_matched(ws, m.tokens) {
            lemma_scan_same(
                b,
                ids,
                k + 1,
                MatchedView { paragraphs: m.paragraphs.insert(pid), ..m },
                past.push(pid),
            );
        } else {
            lemma_scan_same(b, ids, k + 1, m, past);
        }
    }
}

proof fn lemma_paragraphs_told(
    a: ArticleView,
    s: ParagraphState,
    prev: RevisionView,
    raws: Seq<Seq<char>>,
    k: int,
)
    requires
        is_linked(a),
        all_filed(a.paragraphs_ht, distinct_paragraph(a)),
        all_filed(prev.paragraphs, distinct_paragraph(a)),
        paragraphs_told(a, s),
        0 <= k <= raws.len(),
        paragraph_steps(s, prev, raws, k).article.paragraphs.len() <= usize::MAX,
    ensures
        paragraphs_told(a, paragraph_steps(s, prev, raws, k)),
    decreases raws.len() - k,
{
    if k < raws.len() {
        let u = paragraph_step(s, prev, raws[k]);
        lemma_paragraph_steps_grow(u, prev, raws, k + 1);
        if trimmed(raws[k]).len() > 0 {
            lemma_paragraph_told(a, s, prev, raws[k]);
        }
        lemma_paragraphs_told(a, u, prev, raws, k + 1);
    }
}

/// Whether `b` has the sentences of `a`.
spec fn has_sentences(a: ArticleView, b: ArticleView) -> bool {
    &&& a.sentences.len() <= b.sentences.len()
    &&& forall|i: int| 0 <= i < a.sentences.len() ==> #[trigger] b.sentences[i] == a.sentences[i]
}

/// What a search for a sentence does to what is matched and listed.
spec fn is_listed(
    a: ArticleView,
    m: MatchedView,
    past: Seq<usize>,
    r: (MatchedView, Seq<usize>, Option<usize>),
) -> bool {
    &&& is_matched_whole(a, r.0)
    &&& r.0.paragraphs == m.paragraphs
    &&& ids_below(r.1, a.sentences.len() as int)
    &&& forall|sid: usize| past.contains(sid) ==> #[trigger] r.1.contains(sid)
    &&& r.2 is Some ==> r.1.contains(r.2->0)
}

proof fn lemma_scan_lists(
    a: ArticleView,
    b: ArticleView,
    ids: Seq<usize>,
    k: int,
    m: MatchedView,
    past: Seq<usize>,
)
    requires
        0 <= k,
        has_sentences(a, b),
        ids_below(ids, a.sentences.len() as int),
        ids_below(past, a.sentences.len() as int),
        is_matched_whole(a, m),
    ensures
        is_listed(a, m, past, scan_sentences(b, ids, k, m, past)),
    decreases ids.len() - k,
{
    if k < ids.len() {
        let sid = ids[k];
        assert(b.sentences[sid as int] == a.sentences[sid as int]);
        let ws = a.sentences[sid as int].words;
        let n = scan_sentences(b, ids, k, m, past).0;
        let later = past.push(sid);
        assert forall|t: usize| past.contains(t) implies #[trigger] later.contains(t) by {
            let i = choose|i: int| 0 <= i < past.len() && past[i] == t;
            assert(later[i] == t);
        }
        if m.sentences.contains(sid) {
            lemma_scan_lists(a, b, ids, k + 1, m, past);
        } else if !any_matched(ws, m.tokens) {
            assert(n == sentence_taken(b, m, sid));
            assert(later[past.len() as int] == sid);
            assert forall|t: usize, x: usize|
                n.sentences.contains(t) && #[trigger] a.sentences[t as int].words.contains(
                    x,
                ) implies n.tokens.contains(x) by {
                if t == sid {
                    assert(ws.to_set().contains(x));
                }
            }
        } else if all_matched(ws, m.tokens) {
            let q = MatchedView { sentences: m.sentences.insert(sid), ..m };
            assert forall|t: usize, x: usize|
                q.sentences.contains(t) && #[trigger] a.sentences[t as int].words.contains(
                    x,
                ) implies q.tokens.contains(x) by {
                if t == sid {
                    let i = choose|i: int| 0 <= i < ws.len() && ws[i] == x;
                    assert(m.tokens.contains(ws[i]));
                }
            }
            lemma_scan_lists(a, b, ids, k + 1, q, later);
            let end = scan_sentences(b, ids, k + 1, q, later).1;
            assert forall|t: usize| past.contains(t) implies #[trigger] end.contains(t) by {
                assert(later.contains(t));
            }
        } else {
            lemma_scan_lists(a, b, ids, k + 1, m, past);
        }
    }
}

proof fn lemma_bucket_lists(
    a: ArticleView,
    b: ArticleView,
    e: Entries,
    hash: Seq<char>,
    m: MatchedView,
    past: Seq<usize>,
)
    requires
        all_filed(e, distinct_sentence(a)),
        has_sentences(a, b),
        ids_below(past, a.sentences.len() as int),
        is_matched_whole(a, m),
    ensures
        is_listed(a, m, past, scan_sentences(b, bucket(e, hash), 0, m, past)),
{
    let ids = bucket(e, hash);
    lemma_filed_bucket(e, hash, distinct_sentence(a));
    assert forall|j: int| 0 <= j < ids.len() implies (#[trigger] ids[j]) < a.sentences.len() by {
        assert(distinct_sentence(a)(hash, ids[j]));
    }
    lemma_scan_lists(a, b, ids, 0, m, past);
}

proof fn lemma_paragraphs_list(
    a: ArticleView,
    b: ArticleView,
    pids: Seq<usize>,
    k: int,
    hash: Seq<char>,
    m: MatchedView,
    past: Seq<usize>,
)
    requires
        0 <= k,
        are_distinct(a, pids),
        has_sentences(a, b),
        forall|i: int|
            0 <= i < a.paragraphs.len() ==> #[trigger] b.paragraphs[i] == a.paragraphs[i],
        ids_below(past, a.sentences.len() as int),
        is_matched_whole(a, m),
    ensures
        is_listed(a, m, past, scan_in_paragraphs(b, pids, k, hash, m, past)),
    decreases pids.len() - k,
{
    if k < pids.len() {
        let p = a.paragraphs[pids[k] as int];
        assert(b.paragraphs[pids[k] as int] == p);
        lemma_bucket_lists(a, b, p.sentences, hash, m, past);
        let here = scan_sentences(b, bucket(p.sentences, hash), 0, m, past);
        if here.2 is None {
            lemma_paragraphs_list(a, b, pids, k + 1, hash, here.0, here.1);
            let end = scan_in_paragraphs(b, pids, k + 1, hash, here.0, here.1).1;
            assert forall|t: usize| past.contains(t) implies #[trigger] end.contains(t) by {
                assert(here.1.contains(t));
            }
        }
    }
}

/// Whether a token comes from a paragraph or a sentence that is listed.
pub open spec fn is_held(
    a: ArticleView,
    paragraphs: Seq<usize>,
    sentences: Seq<usize>,
    x: usize,
) -> bool {
    ||| words_of(a.sentences, sentences_in(a, paragraphs)).contains(x)
    ||| words_of(a.sentences, sentences).contains(x)
}

/// Whether a sentence, if it has any token, has one that is matched.
pub(crate) open spec fn sentence_in_use(a: ArticleView, sid: usize, tokens: Set<usize>) -> bool {
    a.sentences[sid as int].words.len() > 0 ==> any_matched(
        a.sentences[sid as int].words,
        tokens,
    )
}

/// Whether every sentence filed under the hash of a new one is in use.
pub(crate) open spec fn sentences_sought(a: ArticleView, b: ArticleView, tokens: Set<usize>) -> bool {
    forall|i: int, j: int|
        a.sentences.len() <= i < b.sentences.len() && 0 <= j < bucket(
            a.sentences_ht,
            b.sentences[i].hash_value,
        ).len() ==> sentence_in_use(
            a,
            #[trigger] bucket(a.sentences_ht, b.sentences[i].hash_value)[j],
            tokens,
        )
}

/// Where a search in a bucket finds nothing, all of the bucket is in use.
proof fn lemma_scan_sentences_use(
    a: ArticleView,
    b: ArticleView,
    ids: Seq<usize>,
    k: int,
    m: MatchedView,
    past: Seq<usize>,
)
    requires
        0 <= k,
        has_sentences(a, b),
        ids_below(ids, a.sentences.len() as int),
        is_matched_whole(a, m),
        scan_sentences(b, ids, k, m, past).2 is None,
    ensures
        forall|j: int| k <= j < ids.len() ==> sentence_in_use(a, #[trigger] ids[j], m.tokens),
    decreases ids.len() - k,
{
    if k < ids.len() {
        let sid = ids[k];
        assert(b.sentences[sid as int] == a.sentences[sid as int]);
        let ws = a.sentences[sid as int].words;
        if m.sentences.contains(sid) {
            if ws.len() > 0 {
                assert(ws.contains(ws[0]));
                assert(m.tokens.contains(ws[0]));
            }
            lemma_scan_sentences_use(a, b, ids, k + 1, m, past);
        } else if all_matched(ws, m.tokens) {
            let q = MatchedView { sentences: m.sentences.insert(sid), ..m };
            assert forall|t: usize, x: usize|
                q.sentences.contains(t) && #[trigger] a.sentences[t as int].words.contains(
                    x,
                ) implies q.tokens.contains(x) by {
                if t == sid {
                    let i = choose|i: int| 0 <= i < ws.len() && ws[i] == x;
                    assert(m.tokens.contains(ws[i]));
                }
            }
            lemma_scan_sentences_use(a, b, ids, k + 1, q, past.push(sid));
        } else {
            lemma_scan_sentences_use(a, b, ids, k + 1, m, past);
        }
        assert(sentence_in_use(a, ids[k], m.tokens));
    }
}

/// What the sentence level knows besides; `past` are the paragraphs listed, and
/// `marked` those matched.
spec fn sentences_told(
    a: ArticleView,
    c: ArticleView,
    pids: Seq<usize>,
    past: Seq<usize>,
    marked: Set<usize>,
    s: SentenceState,
) -> bool {
    let b = s.article;
    let used = words_of(b.sentences, text_sentences(b.paragraphs, pids));
    &&& sentences_once(a, c, pids, s)
    &&& is_matched_whole(a, s.matched)
    &&& s.matched.paragraphs == marked
    &&& ids_below(s.matched_prev, a.sentences.len() as int)
    &&& forall|x: usize| #[trigger] s.matched.tokens.contains(x) ==> count_of(used, x) > 0
    &&& forall|x: usize| #[trigger]
        count_of(used, x) > 0 ==> is_held(a, past, s.matched_prev, x)
    &&& sentences_sought(a, b, s.matched.tokens)
}

proof fn lemma_sentence_told(
    a: ArticleView,
    c: ArticleView,
    pids: Seq<usize>,
    past: Seq<usize>,
    marked: Set<usize>,
    s: SentenceState,
    pid: usize,
    prevs: Seq<usize>,
    raw: Seq<char>,
)
    requires
        all_filed(a.sentences_ht, distinct_sentence(a)),
        c.sentences_ht == a.sentences_ht,
        are_distinct(a, prevs),
        once(pids),
        ids_below(pids, c.paragraphs.len() as int),
        pids.contains(pid),
        sentences_told(a, c, pids, past, marked, s),
        a.paragraphs.len() <= pid < c.paragraphs.len(),
        trimmed(raw).len() > 0,
        sentence_step(s, pid, prevs, raw).article.sentences.len() <= usize::MAX,
    ensures
        sentences_told(a, c, pids, past, marked, sentence_step(s, pid, prevs, raw)),
{
    let b = s.article;
    let hash = md5_hex(normalized(trimmed(raw)));
    let u = sentence_step(s, pid, prevs, raw);
    let d = u.article;
    lemma_sentence_once(a, c, pids, s, pid, prevs, raw);
    let first = scan_in_paragraphs(b, prevs, 0, hash, s.matched, s.matched_prev);
    lemma_paragraphs_take(a, b, prevs, 0, hash, s.matched, s.matched_prev);
    lemma_bucket_takes(a, b, a.sentences_ht, hash, first.0, first.1);
    lemma_paragraphs_list(a, b, prevs, 0, hash, s.matched, s.matched_prev);
    if first.2 is None {
        lemma_bucket_lists(a, b, a.sentences_ht, hash, first.0, first.1);
    }
    let (n, later, found) = find_sentence(b, prevs, hash, s.matched, s.matched_prev);
    assert(is_taken(a, b, s.matched, (n, later, found)));
    assert forall|t: usize| s.matched_prev.contains(t) implies #[trigger] later.contains(t) by {
        assert(first.1.contains(t));
    }
    let sid = match found {
        Some(sid) => sid,
        None => b.sentences.len() as usize,
    };
    let p = b.paragraphs[pid as int];
    let q = d.paragraphs[pid as int];
    assert(q == ParagraphView {
        sentences: with_id(p.sentences, hash, sid),
        ordered_sentences: p.ordered_sentences.push(hash),
        ..p
    });
    lemma_in_order_more(p.sentences, p.ordered_sentences, hash, sid);
    let before = text_sentences(b.paragraphs, pids);
    let after = text_sentences(d.paragraphs, pids);
    assert(d.paragraphs == b.paragraphs.update(pid as int, q));
    assert(words_of(d.sentences, before) == words_of(b.sentences, before)) by {
        assert forall|i: int| 0 <= i < before.len() implies d.sentences[(
        #[trigger] before[i]) as int].words == b.sentences[before[i] as int].words by {
            assert(before[i] < b.sentences.len());
        }
        lemma_words_same(b.sentences, d.sentences, before);
    }
    let ws = d.sentences[sid as int].words;
    let used = words_of(b.sentences, before);
    let all = words_of(d.sentences, after);
    assert forall|x: usize| #[trigger] u.matched.tokens.contains(x) implies count_of(all, x) > 0 by {
        lemma_sentence_comes(d.sentences, b.paragraphs, q, pids, pid, sid, x);
        if !s.matched.tokens.contains(x) {
            assert(b.sentences[sid as int].words.to_set().contains(x));
            lemma_count_found(ws, x);
        } else {
            assert(count_of(used, x) > 0);
        }
    }
    assert forall|x: usize| #[trigger] count_of(all, x) > 0 implies is_held(
        a,
        past,
        u.matched_prev,
        x,
    ) by {
        lemma_sentence_comes(d.sentences, b.paragraphs, q, pids, pid, sid, x);
        if count_of(used, x) > 0 {
            assert(is_held(a, past, s.matched_prev, x));
            if words_of(a.sentences, s.matched_prev).contains(x) {
                assert forall|i: int| 0 <= i < s.matched_prev.len() implies later.contains(
                    #[trigger] s.matched_prev[i],
                ) by {
                    assert(s.matched_prev.contains(s.matched_prev[i]));
                }
                lemma_words_among(a.sentences, s.matched_prev, later, x);
            }
        } else {
            assert(count_of(ws, x) > 0);
            assert(found is Some);
            assert(b.sentences[sid as int] == a.sentences[sid as int]);
            let i = choose|i: int| 0 <= i < later.len() && later[i] == sid;
            lemma_words_part(a.sentences, later, i, x);
            lemma_count_found(words_of(a.sentences, later), x);
        }
    }
    lemma_sentence_sought(a, s.matched, s.matched_prev, b, d, prevs, hash);
}

/// A sentence is new only where none that is filed under its hash is unused.
proof fn lemma_sentence_sought(
    a: ArticleView,
    m: MatchedView,
    past: Seq<usize>,
    b: ArticleView,
    d: ArticleView,
    prevs: Seq<usize>,
    hash: Seq<char>,
)
    requires
        all_filed(a.sentences_ht, distinct_sentence(a)),
        b.sentences_ht == a.sentences_ht,
        are_distinct(a, prevs),
        has_sentences(a, b),
        forall|i: int|
            0 <= i < a.paragraphs.len() ==> #[trigger] b.paragraphs[i] == a.paragraphs[i],
        ids_below(past, a.sentences.len() as int),
        is_matched_whole(a, m),
        sentences_sought(a, b, m.tokens),
        find_sentence(b, prevs, hash, m, past).2 is Some ==> d.sentences == b.sentences,
        find_sentence(b, prevs, hash, m, past).2 is None ==> d.sentences.len()
            == b.sentences.len() + 1 && d.sentences.last().hash_value == hash,
        forall|i: int|
            0 <= i < b.sentences.len() ==> (#[trigger] d.sentences[i]).hash_value
                == b.sentences[i].hash_value,
    ensures
        sentences_sought(a, d, find_sentence(b, prevs, hash, m, past).0.tokens),
{
    let first = scan_in_paragraphs(b, prevs, 0, hash, m, past);
    let far = bucket(a.sentences_ht, hash);
    let (n, later, found) = find_sentence(b, prevs, hash, m, past);
    lemma_paragraphs_take(a, b, prevs, 0, hash, m, past);
    lemma_bucket_takes(a, b, a.sentences_ht, hash, first.0, first.1);
    assert forall|x: usize| #[trigger] m.tokens.contains(x) implies n.tokens.contains(x) by {}
    if found is None {
        lemma_paragraphs_list(a, b, prevs, 0, hash, m, past);
        lemma_filed_bucket(a.sentences_ht, hash, distinct_sentence(a));
        assert forall|j: int| 0 <= j < far.len() implies (#[trigger] far[j])
            < a.sentences.len() by {
            assert(distinct_sentence(a)(hash, far[j]));
        }
        lemma_scan_sentences_use(a, b, far, 0, first.0, first.1);
    }
    assert forall|i: int, j: int|
        a.sentences.len() <= i < d.sentences.len() && 0 <= j < bucket(
            a.sentences_ht,
            d.sentences[i].hash_value,
        ).len() implies sentence_in_use(
        a,
        #[trigger] bucket(a.sentences_ht, d.sentences[i].hash_value)[j],
        n.tokens,
    ) by {
        let sid = bucket(a.sentences_ht, d.sentences[i].hash_value)[j];
        if i < b.sentences.len() {
            assert(d.sentences[i].hash_value == b.sentences[i].hash_value);
            assert(bucket(a.sentences_ht, b.sentences[i].hash_value)[j] == sid);
            assert(sentence_in_use(a, sid, m.tokens));
        } else {
            assert(far[j] == sid);
        }
    }
}

proof fn lemma_sentence_steps_told(
    a: ArticleView,
    c: ArticleView,
    pids: Seq<usize>,
    past: Seq<usize>,
    marked: Set<usize>,
    s: SentenceState,
    pid: usize,
    prevs: Seq<usize>,
    raws: Seq<Seq<char>>,
    k: int,
)
    requires
        all_filed(a.sentences_ht, distinct_sentence(a)),
        c.sentences_ht == a.sentences_ht,
        are_distinct(a, prevs),
        once(pids),
        ids_below(pids, c.paragraphs.len() as int),
        pids.contains(pid),
        sentences_told(a, c, pids, past, marked, s),
        a.paragraphs.len() <= pid < c.paragraphs.len(),
        0 <= k <= raws.len(),
        sentence_steps(s, pid, prevs, raws, k).article.sentences.len() <= usize::MAX,
    ensures
        sentences_told(a, c, pids, past, marked, sentence_steps(s, pid, prevs, raws, k)),
    decreases raws.len() - k,
{
    if k < raws.len() {
        let r = sentence_step(s, pid, prevs, raws[k]);
        assert(r.article.paragraphs.len() == s.article.paragraphs.len());
        lemma_sentence_steps_grow(r, pid, prevs, raws, k + 1);
        if trimmed(raws[k]).len() > 0 {
            lemma_sentence_told(a, c, pids, past, marked, s, pid, prevs, raws[k]);
        }
        lemma_sentence_steps_told(a, c, pids, past, marked, r, pid, prevs, raws, k + 1);
    }
}

proof fn lemma_sentence_level_told(
    a: ArticleView,
    c: ArticleView,
    pids: Seq<usize>,
    past: Seq<usize>,
    marked: Set<usize>,
    s: SentenceState,
    prevs: Seq<usize>,
    k: int,
)
    requires
        all_filed(a.sentences_ht, distinct_sentence(a)),
        c.sentences_ht == a.sentences_ht,
        are_distinct(a, prevs),
        once(pids),
        ids_below(pids, c.paragraphs.len() as int),
        a.paragraphs.len() <= c.paragraphs.len() <= usize::MAX,
        forall|i: int|
            a.paragraphs.len() <= i < c.paragraphs.len() ==> pids.contains(#[trigger] new_id(i)),
        sentences_told(a, c, pids, past, marked, s),
        0 <= k <= c.paragraphs.len() - a.paragraphs.len(),
        sentence_paragraphs(
            s,
            new_ids(a.paragraphs.len() as int, c.paragraphs.len() as int),
            prevs,
            k,
        ).article.sentences.len() <= usize::MAX,
    ensures
        sentences_told(
            a,
            c,
            pids,
            past,
            marked,
            sentence_paragraphs(
                s,
                new_ids(a.paragraphs.len() as int, c.paragraphs.len() as int),
                prevs,
                k,
            ),
        ),
    decreases c.paragraphs.len() - k,
{
    let n = a.paragraphs.len() as int;
    let news = new_ids(n, c.paragraphs.len() as int);
    if k < news.len() {
        let pid = news[k];
        assert(pid == new_id(n + k));
        let raws = sentences_of(s.article.paragraphs[pid as int].value);
        let r = sentence_steps(s, pid, prevs, raws, 0);
        lemma_sentence_steps_grow(s, pid, prevs, raws, 0);
        assert(ids_below(news, r.article.paragraphs.len() as int));
        lemma_sentence_paragraphs_grow(r, news, prevs, k + 1);
        lemma_sentence_steps_told(a, c, pids, past, marked, s, pid, prevs, raws, 0);
        lemma_sentence_level_told(a, c, pids, past, marked, r, prevs, k + 1);
    }
}

/// A token once `rev` has removed it.
pub open spec fn dropped(w: WordView, rev: u64) -> WordView {
    WordView { outbound: w.outbound.push(rev), ..w }
}

/// What the word level has done to the earlier token `y`: nothing, and it counts as
/// matched only where it is used; or it dropped it.
spec fn is_told(
    c: ArticleView,
    b: ArticleView,
    tokens: Set<usize>,
    x: WordContext,
    used: Seq<usize>,
    y: usize,
) -> bool {
    ||| b.tokens[y as int] == c.tokens[y as int] && (tokens.contains(y) ==> count_of(used, y) > 0)
    ||| b.tokens[y as int] == dropped(c.tokens[y as int], x.rev) && tokens.contains(y)
        && x.prev_ids.contains(y) && count_of(used, y) == 0
}

/// A token that `rev` introduced and nothing happened to since.
pub open spec fn is_fresh(w: WordView, rev: u64) -> bool {
    &&& w.origin_rev_id == rev
    &&& w.last_rev_id == rev
    &&& w.inbound.len() == 0
    &&& w.outbound.len() == 0
}

/// What the word level knows besides; `start` are the tokens matched before it.
spec fn words_told(
    c: ArticleView,
    sids: Seq<usize>,
    m: int,
    x: WordContext,
    start: Set<usize>,
    b: ArticleView,
    tokens: Set<usize>,
) -> bool {
    let used = words_of(b.sentences, sids);
    &&& words_once(c, sids, m, b, tokens)
    &&& start.subset_of(tokens)
    &&& forall|y: int|
        c.tokens.len() <= y < b.tokens.len() ==> is_fresh(#[trigger] b.tokens[y], x.rev)
            && count_of(used, y as usize) > 0
    &&& b.tokens.len() <= usize::MAX
    &&& forall|y: usize| y < c.tokens.len() ==> #[trigger] is_told(c, b, tokens, x, used, y)
    &&& forall|y: usize|
        y < c.tokens.len() && #[trigger] count_of(used, y) > 0 ==> count_of(
            words_of(c.sentences, sids),
            y,
        ) > 0 || x.prev_ids.contains(y)
}

proof fn lemma_keep_told(
    c: ArticleView,
    sids: Seq<usize>,
    m: int,
    x: WordContext,
    start: Set<usize>,
    b: ArticleView,
    tokens: Set<usize>,
    sid: usize,
    id: usize,
)
    requires
        slots_once(c, sids, m),
        words_told(c, sids, m, x, start, b, tokens),
        m <= sid < c.sentences.len(),
        id < c.tokens.len(),
        !tokens.contains(id),
        x.prev_ids.contains(id),
    ensures
        words_told(c, sids, m, x, start, word_attached(b, sid, id), tokens.insert(id)),
{
    let d = word_attached(b, sid, id);
    let t = d.sentences[sid as int];
    let used = words_of(b.sentences, sids);
    let more = words_of(d.sentences, sids);
    assert(count_of(used, id) == 0);
    lemma_attach_once(c, sids, m, b, tokens, sid, id);
    assert(d.sentences == b.sentences.update(sid as int, t));
    assert(count_of(sids, new_id(sid as int)) == 1);
    assert forall|y: usize| y < c.tokens.len() implies #[trigger] is_told(
        c,
        d,
        tokens.insert(id),
        x,
        more,
        y,
    ) by {
        lemma_word_comes(b.sentences, t, sids, sid, id, y);
        assert(is_told(c, b, tokens, x, used, y));
    }
    assert forall|y: usize| y < c.tokens.len() && #[trigger] count_of(more, y) > 0 implies count_of(
        words_of(c.sentences, sids),
        y,
    ) > 0 || x.prev_ids.contains(y) by {
        lemma_word_comes(b.sentences, t, sids, sid, id, y);
        if y != id {
            assert(count_of(used, y) > 0);
        }
    }
    assert forall|y: int| c.tokens.len() <= y < d.tokens.len() implies is_fresh(
        #[trigger] d.tokens[y],
        x.rev,
    ) && count_of(more, y as usize) > 0 by {
        assert(is_fresh(b.tokens[y], x.rev));
        lemma_word_comes(b.sentences, t, sids, sid, id, y as usize);
    }
}

proof fn lemma_add_told(
    c: ArticleView,
    sids: Seq<usize>,
    m: int,
    x: WordContext,
    start: Set<usize>,
    b: ArticleView,
    tokens: Set<usize>,
    sid: usize,
    word: Seq<char>,
)
    requires
        slots_once(c, sids, m),
        words_told(c, sids, m, x, start, b, tokens),
        m <= sid < c.sentences.len(),
        b.tokens.len() < usize::MAX,
    ensures
        words_told(c, sids, m, x, start, word_added(b, sid, word, x.rev), tokens),
{
    let id = b.next_token_id;
    let d = word_added(b, sid, word, x.rev);
    let t = d.sentences[sid as int];
    let used = words_of(b.sentences, sids);
    let more = words_of(d.sentences, sids);
    lemma_add_once(c, sids, m, b, tokens, sid, word, x.rev);
    assert(d.sentences == b.sentences.update(sid as int, t));
    assert forall|y: usize| y < c.tokens.len() implies #[trigger] is_told(
        c,
        d,
        tokens,
        x,
        more,
        y,
    ) by {
        lemma_word_comes(b.sentences, t, sids, sid, id, y);
        assert(is_told(c, b, tokens, x, used, y));
        assert(d.tokens[y as int] == b.tokens[y as int]);
    }
    assert forall|y: usize| y < c.tokens.len() && #[trigger] count_of(more, y) > 0 implies count_of(
        words_of(c.sentences, sids),
        y,
    ) > 0 || x.prev_ids.contains(y) by {
        lemma_word_comes(b.sentences, t, sids, sid, id, y);
        assert(count_of(used, y) > 0);
    }
    assert(count_of(sids, new_id(sid as int)) == 1);
    assert forall|y: int| c.tokens.len() <= y < d.tokens.len() implies is_fresh(
        #[trigger] d.tokens[y],
        x.rev,
    ) && count_of(more, y as usize) > 0 by {
        lemma_word_comes(b.sentences, t, sids, sid, id, y as usize);
        if y < b.tokens.len() {
            assert(is_fresh(b.tokens[y], x.rev));
            assert(d.tokens[y] == b.tokens[y]);
        }
    }
}

proof fn lemma_scan_told(
    c: ArticleView,
    sids: Seq<usize>,
    m: int,
    s: WordState,
    x: WordContext,
    start: Set<usize>,
    sid: usize,
    word: Seq<char>,
    pos: int,
)
    requires
        slots_once(c, sids, m),
        words_told(c, sids, m, x, start, s.article, s.tokens),
        ids_below(x.prev_ids, c.tokens.len() as int),
        m <= sid < c.sentences.len(),
        s.article.tokens.len() < usize::MAX,
        0 <= pos,
    ensures
        ({
            let (u, found) = scan_steps(s, x, sid, word, pos);
            &&& words_told(c, sids, m, x, start, u.article, u.tokens)
            &&& !found ==> u.article.tokens.len() == s.article.tokens.len()
        }),
    decreases x.ops.len() - pos,
{
    if pos < x.ops.len() {
        let b = s.article;
        let used = words_of(b.sentences, sids);
        lemma_find_prev(x.prev_ids, x.prev_texts, s.tokens, word, 0);
        if s.used[pos] || step_text(x.ops[pos]) != word {
            lemma_scan_told(c, sids, m, s, x, start, sid, word, pos + 1);
        } else {
            let found = find_prev(x.prev_ids, x.prev_texts, s.tokens, word, 0);
            match x.ops[pos] {
                Step::Keep(v) => {
                    match found {
                        Some(i) => {
                            let id = x.prev_ids[i];
                            assert(x.prev_ids.contains(id));
                            lemma_keep_told(c, sids, m, x, start, b, s.tokens, sid, id);
                        },
                        None => {
                            lemma_scan_told(c, sids, m, s, x, start, sid, word, pos + 1);
                        },
                    }
                },
                Step::Delete(v) => {
                    match found {
                        Some(i) => {
                            let id = x.prev_ids[i];
                            let d = b.set_word(id as int, dropped(b.tokens[id as int], x.rev));
                            let r = WordState {
                                article: d,
                                tokens: s.tokens.insert(id),
                                words: s.words.push(id),
                                used: s.used.update(pos, true),
                                ..s
                            };
                            assert(id < c.tokens.len());
                            assert(d.tokens.len() == b.tokens.len());
                            assert(x.prev_ids.contains(id));
                            assert(count_of(used, id) == 0);
                            assert(words_once(c, sids, m, d, r.tokens));
                            assert forall|y: usize| y < c.tokens.len() implies #[trigger] is_told(
                                c,
                                d,
                                r.tokens,
                                x,
                                used,
                                y,
                            ) by {
                                assert(is_told(c, b, s.tokens, x, used, y));
                            }
                            assert forall|y: int|
                                c.tokens.len() <= y < d.tokens.len() implies is_fresh(
                                #[trigger] d.tokens[y],
                                x.rev,
                            ) && count_of(used, y as usize) > 0 by {
                                assert(is_fresh(b.tokens[y], x.rev));
                            }
                            lemma_scan_told(c, sids, m, r, x, start, sid, word, pos + 1);
                        },
                        None => {
                            lemma_scan_told(c, sids, m, s, x, start, sid, word, pos + 1);
                        },
                    }
                },
                Step::Insert(v) => {
                    lemma_add_told(c, sids, m, x, start, b, s.tokens, sid, word);
                },
            }
        }
    }
}

proof fn lemma_words_told(
    c: ArticleView,
    sids: Seq<usize>,
    m: int,
    s: WordState,
    x: WordContext,
    start: Set<usize>,
    ws: Seq<(usize, Seq<char>)>,
    k: int,
)
    requires
        slots_once(c, sids, m),
        words_told(c, sids, m, x, start, s.article, s.tokens),
        ids_below(x.prev_ids, c.tokens.len() as int),
        words_go_to_new(ws, c, m),
        0 <= k <= ws.len(),
        word_steps(s, x, ws, k).article.tokens.len() < usize::MAX,
    ensures
        ({
            let u = word_steps(s, x, ws, k);
            words_told(c, sids, m, x, start, u.article, u.tokens)
        }),
    decreases ws.len() - k,
{
    if k < ws.len() {
        let (sid, word) = ws[k];
        let r = word_step(s, x, sid, word);
        let u = scan_steps(s, x, sid, word, 0).0;
        assert(ws[k].0 < c.sentences.len());
        assert(ids_below(x.prev_ids, s.article.tokens.len() as int));
        assert forall|i: int| 0 <= i < ws.len() implies (#[trigger] ws[i]).0
            < s.article.sentences.len() by {}
        lemma_scan_steps_grow(s, x, sid, word, 0);
        lemma_word_add_grows(u.article, sid, word, x.rev);
        assert(ids_below(x.prev_ids, r.article.tokens.len() as int));
        lemma_word_steps_grow(r, x, ws, k + 1);
        lemma_scan_told(c, sids, m, s, x, start, sid, word, 0);
        if !scan_steps(s, x, sid, word, 0).1 {
            lemma_add_told(c, sids, m, x, start, u.article, u.tokens, sid, word);
        }
        lemma_words_told(c, sids, m, r, x, start, ws, k + 1);
    }
}

proof fn lemma_new_words_told(
    c: ArticleView,
    sids: Seq<usize>,
    m: int,
    x: WordContext,
    start: Set<usize>,
    b: ArticleView,
    tokens: Set<usize>,
    ws: Seq<(usize, Seq<char>)>,
    k: int,
)
    requires
        slots_once(c, sids, m),
        words_told(c, sids, m, x, start, b, tokens),
        words_go_to_new(ws, c, m),
        0 <= k <= ws.len(),
        words_added(b, ws, k, x.rev).tokens.len() < usize::MAX,
    ensures
        words_told(c, sids, m, x, start, words_added(b, ws, k, x.rev), tokens),
    decreases ws.len() - k,
{
    if k < ws.len() {
        let (sid, word) = ws[k];
        let d = word_added(b, sid, word, x.rev);
        assert(ws[k].0 < c.sentences.len());
        lemma_word_add_grows(b, sid, word, x.rev);
        assert forall|i: int| 0 <= i < ws.len() implies (#[trigger] ws[i]).0 < d.sentences.len() by {}
        lemma_words_added_grow(d, ws, k + 1, x.rev);
        lemma_add_told(c, sids, m, x, start, b, tokens, sid, word);
        lemma_new_words_told(c, sids, m, x, start, d, tokens, ws, k + 1);
    }
}

/// What the words of the level are matched against.
spec fn word_context(
    c: ArticleView,
    m: int,
    prev: Seq<usize>,
    rev: u64,
    tokens: Set<usize>,
) -> WordContext {
    let ws = sentence_words(c, new_ids(m, c.sentences.len() as int));
    let ids = not_in(words_of(c.sentences, prev), tokens);
    WordContext {
        prev_ids: ids,
        prev_texts: word_values(c, ids),
        ops: transcript(word_values(c, ids), words_only(ws)),
        rev,
    }
}

proof fn lemma_word_level_told(
    c: ArticleView,
    sids: Seq<usize>,
    m: int,
    prev: Seq<usize>,
    suspect: bool,
    rev: u64,
    adds: nat,
    tokens: Set<usize>,
)
    requires
        slots_once(c, sids, m),
        words_told(c, sids, m, word_context(c, m, prev, rev, tokens), tokens, c, tokens),
        is_linked(c),
        ids_below(prev, c.sentences.len() as int),
        word_level(
            c,
            new_ids(m, c.sentences.len() as int),
            prev,
            suspect,
            rev,
            adds,
            tokens,
        ).article.tokens.len() < usize::MAX,
    ensures
        ({
            let w = word_level(
                c,
                new_ids(m, c.sentences.len() as int),
                prev,
                suspect,
                rev,
                adds,
                tokens,
            );
            words_told(c, sids, m, word_context(c, m, prev, rev, tokens), tokens, w.article, w.tokens)
        }),
{
    let n = c.sentences.len() as int;
    let ws = sentence_words(c, new_ids(m, n));
    let x = word_context(c, m, prev, rev, tokens);
    lemma_words_are_new(c, m, n - m);
    lemma_words_below(c.sentences, prev, c.tokens.len() as int);
    lemma_not_in_below(words_of(c.sentences, prev), tokens, c.tokens.len() as int);
    let s = WordState {
        article: c,
        tokens,
        words: Seq::empty(),
        used: Seq::new(x.ops.len(), |i: int| false),
        adds,
    };
    if ws.len() == 0 || (suspect && is_dense(words_only(ws))) {
    } else if x.prev_ids.len() == 0 {
        lemma_new_words_told(c, sids, m, x, tokens, c, tokens, ws, 0);
    } else {
        lemma_words_told(c, sids, m, s, x, tokens, ws, 0);
    }
}

proof fn lemma_not_in_has(ids: Seq<usize>, set: Set<usize>, x: usize)
    requires
        ids.contains(x),
        !set.contains(x),
    ensures
        not_in(ids, set).contains(x),
    decreases ids.len(),
{
    let less = ids.drop_last();
    let r = not_in(ids, set);
    if ids.last() == x {
        assert(r[not_in(less, set).len() as int] == x);
    } else {
        let i = choose|i: int| 0 <= i < ids.len() && ids[i] == x;
        assert(less[i] == x);
        lemma_not_in_has(less, set, x);
        let j = choose|j: int| 0 <= j < not_in(less, set).len() && not_in(less, set)[j] == x;
        assert(r[j] == x);
    }
}

/// Sentences left over are those that were not marked before.
spec fn is_left_over(before: Set<usize>, marked: Set<usize>, left: Seq<usize>) -> bool {
    &&& before.subset_of(marked)
    &&& forall|sid: usize| #[trigger]
        marked.contains(sid) ==> before.contains(sid) || left.contains(sid)
}

proof fn lemma_left_over(
    ids: Seq<usize>,
    k: int,
    m: Set<usize>,
    left: Seq<usize>,
    before: Set<usize>,
)
    requires
        0 <= k,
        is_left_over(before, m, left),
    ensures
        ({
            let r = sentences_left(ids, k, m, left);
            &&& is_left_over(before, r.0, r.1)
            &&& m.subset_of(r.0)
            &&& forall|sid: usize| left.contains(sid) ==> #[trigger] r.1.contains(sid)
            &&& forall|sid: usize| #[trigger]
                r.1.contains(sid) ==> left.contains(sid) || ids.contains(sid)
            &&& forall|j: int| k <= j < ids.len() ==> r.0.contains(#[trigger] ids[j])
        }),
    decreases ids.len() - k,
{
    if k < ids.len() {
        if m.contains(ids[k]) {
            lemma_left_over(ids, k + 1, m, left, before);
        } else {
            let more = left.push(ids[k]);
            let n = m.insert(ids[k]);
            assert(more[left.len() as int] == ids[k]);
            assert forall|sid: usize| left.contains(sid) implies #[trigger] more.contains(sid) by {
                let i = choose|i: int| 0 <= i < left.len() && left[i] == sid;
                assert(more[i] == sid);
            }
            lemma_left_over(ids, k + 1, n, more, before);
            let r = sentences_left(ids, k + 1, n, more);
            assert forall|sid: usize| #[trigger] r.1.contains(sid) implies left.contains(sid)
                || ids.contains(sid) by {
                if more.contains(sid) {
                    let i = choose|i: int| 0 <= i < more.len() && more[i] == sid;
                    if i < left.len() {
                        assert(left[i] == sid);
                    } else {
                        assert(ids[k] == sid);
                    }
                }
            }
            assert forall|j: int| k <= j < ids.len() implies r.0.contains(#[trigger] ids[j]) by {
                if j == k {
                    assert(n.contains(ids[k]));
                }
            }
        }
    }
}

/// The sentences of the paragraph `p` in the order of its text.
spec fn sentences_of_paragraph(p: ParagraphView) -> Seq<usize> {
    ordered_ids(p.sentences, p.ordered_sentences)
}

proof fn lemma_left_over_in(
    b: ArticleView,
    pids: Seq<usize>,
    k: int,
    m: Set<usize>,
    left: Seq<usize>,
    before: Set<usize>,
)
    requires
        0 <= k,
        is_left_over(before, m, left),
    ensures
        ({
            let r = sentences_left_in(b, pids, k, m, left);
            &&& is_left_over(before, r.0, r.1)
            &&& m.subset_of(r.0)
            &&& forall|sid: usize| left.contains(sid) ==> #[trigger] r.1.contains(sid)
            &&& forall|sid: usize| #[trigger]
                r.1.contains(sid) ==> left.contains(sid) || exists|i: int|
                    k <= i < pids.len() && sentences_of_paragraph(
                        b.paragraphs[(#[trigger] pids[i]) as int],
                    ).contains(sid)
            &&& forall|i: int, sid: usize|
                k <= i < pids.len() && #[trigger] sentences_of_paragraph(
                    b.paragraphs[pids[i] as int],
                ).contains(sid) ==> r.0.contains(sid)
        }),
    decreases pids.len() - k,
{
    if k < pids.len() {
        let p = b.paragraphs[pids[k] as int];
        let ids = sentences_of_paragraph(p);
        let here = sentences_left(ids, 0, m, left);
        lemma_left_over(ids, 0, m, left, before);
        lemma_left_over_in(b, pids, k + 1, here.0, here.1, before);
        let r = sentences_left_in(b, pids, k + 1, here.0, here.1);
        assert forall|sid: usize| left.contains(sid) implies #[trigger] r.1.contains(sid) by {
            assert(here.1.contains(sid));
        }
        assert forall|sid: usize| #[trigger] r.1.contains(sid) implies left.contains(sid) || exists|
            i: int,
        |
            k <= i < pids.len() && sentences_of_paragraph(
                b.paragraphs[(#[trigger] pids[i]) as int],
            ).contains(sid) by {
            if here.1.contains(sid) {
                if !left.contains(sid) {
                    assert(sentences_of_paragraph(b.paragraphs[pids[k] as int]).contains(sid));
                }
            } else {
                let i = choose|i: int|
                    k + 1 <= i < pids.len() && sentences_of_paragraph(
                        b.paragraphs[(#[trigger] pids[i]) as int],
                    ).contains(sid);
                assert(sentences_of_paragraph(b.paragraphs[pids[i] as int]).contains(sid));
            }
        }
        assert forall|i: int, sid: usize|
            k <= i < pids.len() && #[trigger] sentences_of_paragraph(
                b.paragraphs[pids[i] as int],
            ).contains(sid) implies r.0.contains(sid) by {
            if i == k {
                let j = choose|j: int| 0 <= j < ids.len() && ids[j] == sid;
                assert(here.0.contains(ids[j]));
            }
        }
    }
}

/// A token of several sentences is in one of them.
proof fn lemma_words_from(sentences: Seq<SentenceView>, sids: Seq<usize>, x: usize) -> (i: int)
    requires
        words_of(sentences, sids).contains(x),
    ensures
        0 <= i < sids.len(),
        sentences[sids[i] as int].words.contains(x),
    decreases sids.len(),
{
    let less = sids.drop_last();
    let last = sentences[sids.last() as int].words;
    lemma_count_found(words_of(sentences, sids), x);
    if sids.len() > 0 {
        lemma_count_add(words_of(sentences, less), last, x);
        lemma_count_found(last, x);
        if last.contains(x) {
            sids.len() - 1
        } else {
            lemma_count_found(words_of(sentences, less), x);
            let i = lemma_words_from(sentences, less, x);
            assert(less[i] == sids[i]);
            i
        }
    } else {
        0
    }
}

/// A token of several paragraphs is in one of them.
proof fn lemma_tokens_from(b: ArticleView, pids: Seq<usize>, x: usize) -> (i: int)
    requires
        tokens_of_paragraphs(b, pids).contains(x),
    ensures
        0 <= i < pids.len(),
        count_of(text_words(b, b.paragraphs[pids[i] as int]), x) > 0,
    decreases pids.len(),
{
    let less = pids.drop_last();
    lemma_count_found(tokens_of_paragraphs(b, pids), x);
    if pids.len() > 0 {
        let last = text_words(b, b.paragraphs[pids.last() as int]);
        lemma_count_add(tokens_of_paragraphs(b, less), last, x);
        if count_of(last, x) > 0 {
            pids.len() - 1
        } else {
            lemma_count_found(tokens_of_paragraphs(b, less), x);
            let i = lemma_tokens_from(b, less, x);
            assert(less[i] == pids[i]);
            i
        }
    } else {
        0
    }
}

/// A sentence of a listed paragraph belongs to one of them.
proof fn lemma_sentences_from(a: ArticleView, pids: Seq<usize>, sid: usize) -> (i: int)
    requires
        sentences_in(a, pids).contains(sid),
    ensures
        0 <= i < pids.len(),
        all_ids(a.paragraphs[pids[i] as int].sentences).contains(sid),
    decreases pids.len(),
{
    let less = pids.drop_last();
    let all = sentences_in(a, pids);
    let head = sentences_in(a, less);
    let j = choose|j: int| 0 <= j < all.len() && all[j] == sid;
    if j < head.len() {
        assert(head[j] == sid);
        let i = lemma_sentences_from(a, less, sid);
        assert(less[i] == pids[i]);
        i
    } else {
        assert(all_ids(a.paragraphs[pids.last() as int].sentences)[j - head.len()] == sid);
        pids.len() - 1
    }
}

/// The sentences of the same paragraphs.
proof fn lemma_sentences_in_same(a: ArticleView, b: ArticleView, pids: Seq<usize>)
    requires
        ids_below(pids, a.paragraphs.len() as int),
        forall|i: int|
            0 <= i < a.paragraphs.len() ==> (#[trigger] b.paragraphs[i]).sentences
                == a.paragraphs[i].sentences,
    ensures
        sentences_in(b, pids) == sentences_in(a, pids),
    decreases pids.len(),
{
    if pids.len() > 0 {
        let less = pids.drop_last();
        assert forall|i: int| 0 <= i < less.len() implies (#[trigger] less[i])
            < a.paragraphs.len() by {
            assert(less[i] == pids[i]);
        }
        lemma_sentences_in_same(a, b, less);
        assert(pids[pids.len() - 1] < a.paragraphs.len());
    }
}

proof fn lemma_sentences_in_below(a: ArticleView, pids: Seq<usize>)
    requires
        is_linked(a),
        ids_below(pids, a.paragraphs.len() as int),
    ensures
        ids_below(sentences_in(a, pids), a.sentences.len() as int),
    decreases pids.len(),
{
    if pids.len() > 0 {
        let less = pids.drop_last();
        assert forall|i: int| 0 <= i < less.len() implies (#[trigger] less[i])
            < a.paragraphs.len() by {
            assert(less[i] == pids[i]);
        }
        lemma_sentences_in_below(a, less);
        assert(pids[pids.len() - 1] < a.paragraphs.len());
        lemma_all_ids_below(
            a.paragraphs[pids.last() as int].sentences,
            a.sentences.len() as int,
        );
    }
}

/// The tokens of earlier sentences are the same later on.
proof fn lemma_kept_words(a: ArticleView, b: ArticleView, sids: Seq<usize>)
    requires
        is_kept(a, b),
        ids_below(sids, a.sentences.len() as int),
    ensures
        words_of(b.sentences, sids) == words_of(a.sentences, sids),
{
    assert forall|i: int| 0 <= i < sids.len() implies b.sentences[(#[trigger] sids[i]) as int].words
        == a.sentences[sids[i] as int].words by {
        assert(sids[i] < a.sentences.len());
    }
    lemma_words_same(a.sentences, b.sentences, sids);
}

/// What the cascade leaves of the earlier token `y`.
spec fn is_accounted(
    a: ArticleView,
    prev: RevisionView,
    b: ArticleView,
    r: RevisionView,
    out: CascadeView,
    y: usize,
) -> bool {
    let w = a.tokens[y as int];
    if revision_tokens(b, r).contains(y) {
        &&& out.matched_token_ids.contains(y)
        &&& b.tokens[y as int] == w
        &&& words_held(b, out).contains(y)
    } else {
        ||| b.tokens[y as int] == dropped(w, r.id) && out.matched_token_ids.contains(y)
            && revision_tokens(a, prev).contains(y)
        ||| b.tokens[y as int] == w && !out.matched_token_ids.contains(y) && (revision_tokens(
            a,
            prev,
        ).contains(y) <==> words_left(b, out).contains(y))
    }
}

proof fn lemma_in_prev(a: ArticleView, prev: RevisionView, pid: usize, y: usize)
    requires
        ordered_ids(prev.paragraphs, prev.ordered_paragraphs).contains(pid),
        count_of(text_words(a, a.paragraphs[pid as int]), y) > 0,
    ensures
        revision_tokens(a, prev).contains(y),
{
    let pids = ordered_ids(prev.paragraphs, prev.ordered_paragraphs);
    let i = choose|i: int| 0 <= i < pids.len() && pids[i] == pid;
    lemma_paragraph_part(a, pids, i, y);
    lemma_count_found(revision_tokens(a, prev), y);
}

/// What is left over of the previous revision is of the previous revision.
proof fn lemma_left_words(
    a: ArticleView,
    prev: RevisionView,
    m: MatchedView,
    y: usize,
)
    requires
        is_linked(a),
        is_distinct_revision(a, prev),
        words_of(a.sentences, sentences_in(a, paragraphs_left(prev, m))).contains(y),
    ensures
        revision_tokens(a, prev).contains(y),
{
    let left = paragraphs_left(prev, m);
    let all = ordered_ids(prev.paragraphs, prev.ordered_paragraphs);
    let sids = sentences_in(a, left);
    let k = lemma_words_from(a.sentences, sids, y);
    assert(sids.contains(sids[k]));
    let i = lemma_sentences_from(a, left, sids[k]);
    lemma_sentence_among(a, left[i], sids[k], y);
    lemma_not_in_among(all, m.paragraphs);
    let j = choose|j: int| 0 <= j < all.len() && all[j] == left[i];
    lemma_pids_distinct(a, prev, j);
    lemma_among_text(a, left[i], y);
    lemma_in_prev(a, prev, left[i], y);
}

/// A token of the previous revision whose paragraph is not matched is left over.
proof fn lemma_prev_left(
    a: ArticleView,
    prev: RevisionView,
    m: MatchedView,
    y: usize,
) -> (pid: usize)
    requires
        is_matched_whole(a, m),
        !m.tokens.contains(y),
        revision_tokens(a, prev).contains(y),
    ensures
        paragraphs_left(prev, m).contains(pid),
        paragraph_words(a, pid).contains(y),
        text_words(a, a.paragraphs[pid as int]).contains(y),
{
    let all = ordered_ids(prev.paragraphs, prev.ordered_paragraphs);
    let i = lemma_tokens_from(a, all, y);
    let pid = all[i];
    lemma_text_among(a, pid, y);
    lemma_count_found(text_words(a, a.paragraphs[pid as int]), y);
    assert(all.contains(pid));
    lemma_not_in_has(all, m.paragraphs, pid);
    pid
}

/// Earlier sentences left over are of the previous revision.
proof fn lemma_over_words(
    a: ArticleView,
    prev: RevisionView,
    m: MatchedView,
    over: Seq<usize>,
    y: usize,
)
    requires
        forall|sid: usize| #[trigger]
            over.contains(sid) ==> exists|i: int|
                0 <= i < paragraphs_left(prev, m).len() && sentences_of_paragraph(
                    a.paragraphs[(#[trigger] paragraphs_left(prev, m)[i]) as int],
                ).contains(sid),
        words_of(a.sentences, over).contains(y),
    ensures
        revision_tokens(a, prev).contains(y),
{
    let left = paragraphs_left(prev, m);
    let all = ordered_ids(prev.paragraphs, prev.ordered_paragraphs);
    let k = lemma_words_from(a.sentences, over, y);
    let sid = over[k];
    assert(over.contains(sid));
    let i = choose|i: int|
        0 <= i < left.len() && sentences_of_paragraph(
            a.paragraphs[(#[trigger] left[i]) as int],
        ).contains(sid);
    let sids = sentences_of_paragraph(a.paragraphs[left[i] as int]);
    let j = choose|j: int| 0 <= j < sids.len() && sids[j] == sid;
    lemma_words_part(a.sentences, sids, j, y);
    lemma_count_found(a.sentences[sid as int].words, y);
    lemma_not_in_among(all, m.paragraphs);
    assert(all.contains(left[i]));
    lemma_in_prev(a, prev, left[i], y);
}

proof fn lemma_add_contains(s: Seq<usize>, t: Seq<usize>, x: usize)
    ensures
        (s + t).contains(x) <==> s.contains(x) || t.contains(x),
{
    lemma_count_add(s, t, x);
    lemma_count_found(s, x);
    lemma_count_found(t, x);
    lemma_count_found(s + t, x);
}

/// The paragraph level on a whole text.
proof fn lemma_paragraph_level_told(
    a: ArticleView,
    text: Seq<char>,
    prev: RevisionView,
    curr: RevisionView,
)
    requires
        is_unique(a),
        all_filed(prev.paragraphs, distinct_paragraph(a)),
        curr.paragraphs.len() == 0,
        curr.ordered_paragraphs.len() == 0,
        paragraph_level(a, text, prev, curr, nothing_matched()).article.paragraphs.len()
            <= usize::MAX,
    ensures
        paragraphs_told(a, paragraph_level(a, text, prev, curr, nothing_matched())),
{
    let raws = paragraphs_of(text);
    let s = ParagraphState {
        article: a,
        revision: curr,
        matched: nothing_matched(),
        unmatched_curr: Seq::empty(),
        matched_prev: Seq::empty(),
    };
    lemma_paragraph_steps_grow(s, prev, raws, 0);
    assert(curr.paragraphs =~= Seq::empty());
    assert(curr.ordered_paragraphs =~= Seq::empty());
    let n = a.paragraphs.len() as int;
    assert(new_ids(n, n) =~= Seq::<usize>::empty());
    let pids = ordered_ids(curr.paragraphs, curr.ordered_paragraphs);
    assert(pids =~= Seq::<usize>::empty());
    assert(tokens_of_paragraphs(a, pids) =~= Seq::<usize>::empty());
    assert(paragraphs_once(a, s));
    lemma_paragraphs_told(a, s, prev, raws, 0);
}

/// What follows from what the levels know; `b` is the article after the word level.
proof fn lemma_accounts(
    a: ArticleView,
    prev: RevisionView,
    p: ParagraphState,
    u: SentenceState,
    over: Seq<usize>,
    b: ArticleView,
    tokens: Set<usize>,
    r: RevisionView,
    out: CascadeView,
    y: usize,
)
    requires
        is_linked(a),
        is_distinct_revision(a, prev),
        paragraphs_told(a, p),
        sentences_told(
            a,
            p.article,
            ordered_ids(p.revision.paragraphs, p.revision.ordered_paragraphs),
            p.matched_prev,
            p.matched.paragraphs,
            u,
        ),
        is_linked(u.article),
        over == sentences_left_in(
            u.article,
            paragraphs_left(prev, p.matched),
            0,
            u.matched.sentences,
            Seq::empty(),
        ).1,
        words_told(
            u.article,
            text_sentences(
                u.article.paragraphs,
                ordered_ids(p.revision.paragraphs, p.revision.ordered_paragraphs),
            ),
            a.sentences.len() as int,
            word_context(
                u.article,
                a.sentences.len() as int,
                over,
                p.revision.id,
                u.matched.tokens,
            ),
            u.matched.tokens,
            b,
            tokens,
        ),
        is_kept(a, b),
        r == (RevisionView { original_adds: r.original_adds, ..p.revision }),
        out.matched_paragraphs_prev == p.matched_prev,
        out.unmatched_paragraphs_prev == paragraphs_left(prev, p.matched),
        out.matched_sentences_prev == u.matched_prev + over,
        out.unmatched_sentences_prev == over,
        out.matched_token_ids == tokens,
        y < a.tokens.len(),
    ensures
        is_accounted(a, prev, b, r, out, y),
{
    let d = u.article;
    let m = a.sentences.len() as int;
    let pids = ordered_ids(p.revision.paragraphs, p.revision.ordered_paragraphs);
    let sids = text_sentences(d.paragraphs, pids);
    let left = paragraphs_left(prev, p.matched);
    let x = word_context(d, m, over, p.revision.id, u.matched.tokens);
    let used = words_of(b.sentences, sids);
    assert(d.tokens == a.tokens);
    assert(b.paragraphs == d.paragraphs);
    lemma_text_sentences(b, pids);
    lemma_count_found(used, y);
    assert(is_told(d, b, tokens, x, used, y));
    lemma_left_distinct(a, prev, p.matched);
    lemma_left_over_in(d, left, 0, u.matched.sentences, Seq::empty(), u.matched.sentences);
    assert(ids_below(left, a.paragraphs.len() as int));
    assert forall|sid: usize| #[trigger] over.contains(sid) implies exists|i: int|
        0 <= i < left.len() && sentences_of_paragraph(
            a.paragraphs[(#[trigger] left[i]) as int],
        ).contains(sid) by {
        let i = choose|i: int|
            0 <= i < left.len() && sentences_of_paragraph(
                d.paragraphs[(#[trigger] left[i]) as int],
            ).contains(sid);
        assert(left[i] < a.paragraphs.len());
        assert(d.paragraphs[left[i] as int] == a.paragraphs[left[i] as int]);
        assert(sentences_of_paragraph(a.paragraphs[left[i] as int]).contains(sid));
    }
    assert forall|k: int| 0 <= k < over.len() implies (#[trigger] over[k]) < m by {
        assert(over.contains(over[k]));
        let i = choose|i: int|
            0 <= i < left.len() && sentences_of_paragraph(
                a.paragraphs[(#[trigger] left[i]) as int],
            ).contains(over[k]);
        let q = a.paragraphs[left[i] as int];
        lemma_ordered_below(q.sentences, q.ordered_sentences, 0, m);
        let ids = sentences_of_paragraph(q);
        let j = choose|j: int| 0 <= j < ids.len() && ids[j] == over[k];
        assert(ids[j] < m);
    }
    lemma_kept_words(a, b, over);
    assert(is_kept(a, d));
    lemma_kept_words(a, d, over);
    lemma_not_in_among(words_of(d.sentences, over), u.matched.tokens);
    if x.prev_ids.contains(y) {
        let k = choose|k: int| 0 <= k < x.prev_ids.len() && x.prev_ids[k] == y;
        assert(words_of(d.sentences, over).contains(x.prev_ids[k]));
        lemma_over_words(a, prev, p.matched, over, y);
    }
    if used.contains(y) {
        let past = p.matched_prev;
        lemma_sentences_in_below(a, past);
        lemma_sentences_in_same(a, b, past);
        lemma_kept_words(a, b, sentences_in(a, past));
        lemma_kept_words(a, b, u.matched_prev);
        lemma_words_add(b.sentences, u.matched_prev, over);
        lemma_add_contains(
            words_of(b.sentences, u.matched_prev),
            words_of(b.sentences, over),
            y,
        );
        lemma_add_contains(
            words_of(b.sentences, sentences_in(b, past)),
            words_of(b.sentences, out.matched_sentences_prev),
            y,
        );
        if !x.prev_ids.contains(y) {
            assert(count_of(words_of(d.sentences, sids), y) > 0);
            assert(is_held(a, past, u.matched_prev, y));
        }
    } else if !tokens.contains(y) {
        assert(!u.matched.tokens.contains(y));
        lemma_sentences_in_below(a, left);
        lemma_sentences_in_same(a, b, left);
        lemma_kept_words(a, b, sentences_in(a, left));
        if revision_tokens(a, prev).contains(y) {
            let pid = lemma_prev_left(a, prev, u.matched, y);
            let i = choose|i: int| 0 <= i < left.len() && left[i] == pid;
            assert(left[i] < a.paragraphs.len());
            let ids = sentences_of_paragraph(a.paragraphs[pid as int]);
            let j = lemma_words_from(a.sentences, ids, y);
            assert(d.paragraphs[left[i] as int] == a.paragraphs[pid as int]);
            assert(sentences_of_paragraph(d.paragraphs[left[i] as int]).contains(ids[j]));
            assert(!u.matched.sentences.contains(ids[j]));
            assert(over.contains(ids[j]));
            let k = choose|k: int| 0 <= k < over.len() && over[k] == ids[j];
            lemma_words_part(a.sentences, over, k, y);
            lemma_count_found(a.sentences[ids[j] as int].words, y);
            lemma_count_found(words_of(a.sentences, over), y);
        }
        if words_left(b, out).contains(y) {
            if over.len() > 0 {
                lemma_over_words(a, prev, p.matched, over, y);
            } else {
                lemma_left_words(a, prev, p.matched, y);
            }
        }
    }
}

/// What the cascade leaves of every token.
spec fn is_settled(
    a: ArticleView,
    prev: RevisionView,
    b: ArticleView,
    r: RevisionView,
    out: CascadeView,
) -> bool {
    &&& a.tokens.len() <= b.tokens.len() <= usize::MAX
    &&& forall|y: usize| y < a.tokens.len() ==> #[trigger] is_accounted(a, prev, b, r, out, y)
    &&& forall|y: int|
        a.tokens.len() <= y < b.tokens.len() ==> is_fresh(#[trigger] b.tokens[y], r.id)
            && revision_tokens(b, r).contains(y as usize)
    &&& ids_below(words_left(b, out), a.tokens.len() as int)
    &&& ids_below(words_held(b, out), a.tokens.len() as int)
}

/// The tokens that the outcome lists are earlier ones.
proof fn lemma_listed_below(a: ArticleView, b: ArticleView, out: CascadeView)
    requires
        is_linked(a),
        is_kept(a, b),
        ids_below(out.matched_paragraphs_prev, a.paragraphs.len() as int),
        ids_below(out.unmatched_paragraphs_prev, a.paragraphs.len() as int),
        ids_below(out.matched_sentences_prev, a.sentences.len() as int),
        ids_below(out.unmatched_sentences_prev, a.sentences.len() as int),
    ensures
        ids_below(words_left(b, out), a.tokens.len() as int),
        ids_below(words_held(b, out), a.tokens.len() as int),
{
    let n = a.tokens.len() as int;
    lemma_sentences_in_below(a, out.matched_paragraphs_prev);
    lemma_sentences_in_below(a, out.unmatched_paragraphs_prev);
    lemma_sentences_in_same(a, b, out.matched_paragraphs_prev);
    lemma_sentences_in_same(a, b, out.unmatched_paragraphs_prev);
    lemma_kept_words(a, b, sentences_in(a, out.matched_paragraphs_prev));
    lemma_kept_words(a, b, sentences_in(a, out.unmatched_paragraphs_prev));
    lemma_kept_words(a, b, out.matched_sentences_prev);
    lemma_kept_words(a, b, out.unmatched_sentences_prev);
    lemma_words_below(a.sentences, sentences_in(a, out.matched_paragraphs_prev), n);
    lemma_words_below(a.sentences, sentences_in(a, out.unmatched_paragraphs_prev), n);
    lemma_words_below(a.sentences, out.matched_sentences_prev, n);
    lemma_words_below(a.sentences, out.unmatched_sentences_prev, n);
}

proof fn lemma_over_below(
    a: ArticleView,
    d: ArticleView,
    left: Seq<usize>,
    m: Set<usize>,
)
    requires
        is_linked(a),
        ids_below(left, a.paragraphs.len() as int),
        forall|i: int|
            0 <= i < a.paragraphs.len() ==> #[trigger] d.paragraphs[i] == a.paragraphs[i],
    ensures
        ids_below(
            sentences_left_in(d, left, 0, m, Seq::empty()).1,
            a.sentences.len() as int,
        ),
{
    let over = sentences_left_in(d, left, 0, m, Seq::empty()).1;
    lemma_left_over_in(d, left, 0, m, Seq::empty(), m);
    assert forall|k: int| 0 <= k < over.len() implies (#[trigger] over[k]) < a.sentences.len() by {
        assert(over.contains(over[k]));
        let i = choose|i: int|
            0 <= i < left.len() && sentences_of_paragraph(
                d.paragraphs[(#[trigger] left[i]) as int],
            ).contains(over[k]);
        assert(left[i] < a.paragraphs.len());
        let q = a.paragraphs[left[i] as int];
        assert(d.paragraphs[left[i] as int] == q);
        lemma_ordered_below(q.sentences, q.ordered_sentences, 0, a.sentences.len() as int);
        let ids = sentences_of_paragraph(q);
        let j = choose|j: int| 0 <= j < ids.len() && ids[j] == over[k];
        assert(ids[j] < a.sentences.len());
    }
}

/// The cascade on a text.
proof fn lemma_cascade_settles(
    a: ArticleView,
    text: Seq<char>,
    prev: RevisionView,
    curr: RevisionView,
)
    requires
        is_unique(a),
        is_distinct_revision(a, prev),
        curr.paragraphs.len() == 0,
        curr.ordered_paragraphs.len() == 0,
        has_room(a, text, prev, curr),
    ensures
        ({
            let (b, r, out) = authorship(a, text, prev, curr);
            &&& r.id == curr.id
            &&& !out.vandalism ==> is_settled(a, prev, b, r, out)
            &&& out.vandalism ==> b.tokens == a.tokens
        }),
{
    let m = a.sentences.len() as int;
    let p = paragraph_level(a, text, prev, curr, nothing_matched());
    let c = p.article;
    let left = paragraphs_left(prev, p.matched);
    let pids = ordered_ids(p.revision.paragraphs, p.revision.ordered_paragraphs);
    lemma_cascade_once(a, text, prev, curr);
    lemma_paragraph_level_told(a, text, prev, curr);
    lemma_paragraph_steps_grow(
        ParagraphState {
            article: a,
            revision: curr,
            matched: nothing_matched(),
            unmatched_curr: Seq::empty(),
            matched_prev: Seq::empty(),
        },
        prev,
        paragraphs_of(text),
        0,
    );
    lemma_left_distinct(a, prev, p.matched);
    assert(ids_below(left, a.paragraphs.len() as int));
    let s0 = SentenceState {
        article: c,
        matched: p.matched,
        unmatched_curr: Seq::empty(),
        matched_prev: Seq::empty(),
        total: 0,
    };
    let u = sentence_pass(c, p.unmatched_curr, left, p.matched);
    assert(ids_below(p.unmatched_curr, c.paragraphs.len() as int));
    lemma_sentence_paragraphs_grow(s0, p.unmatched_curr, left, 0);
    lemma_sentences_begin(a, p);
    lemma_text_sentences(c, pids);
    assert(sentences_told(a, c, pids, p.matched_prev, p.matched.paragraphs, s0));
    lemma_sentence_level_told(
        a,
        c,
        pids,
        p.matched_prev,
        p.matched.paragraphs,
        s0,
        left,
        0,
    );
    let d = u.article;
    let sids = text_sentences(d.paragraphs, pids);
    lemma_sentences_linked(a, c, pids, u);
    lemma_words_begin(a, c, pids, u, u.matched.tokens);
    let over = sentences_left_in(d, left, 0, u.matched.sentences, Seq::empty()).1;
    lemma_over_below(a, d, left, u.matched.sentences);
    let x = word_context(d, m, over, p.revision.id, u.matched.tokens);
    let (b, r, out) = authorship(a, text, prev, curr);
    assert(d.tokens == a.tokens);
    assert(a.tokens.len() == a.next_token_id);
    assert(p.revision.id == curr.id);
    assert(r.id == curr.id);
    assert(x.rev == r.id);
    assert(words_told(d, sids, m, x, u.matched.tokens, d, u.matched.tokens)) by {
        let used = words_of(d.sentences, sids);
        assert forall|y: usize| y < d.tokens.len() implies #[trigger] is_told(
            d,
            d,
            u.matched.tokens,
            x,
            used,
            y,
        ) by {}
    }
    if p.unmatched_curr.len() == 0 {
        lemma_settles_early(a, prev, p, r, out);
    } else {
        let (z, q, s) = sentence_level(c, p.unmatched_curr, left, p.matched);
        let w = word_level(
            d,
            s.0,
            s.1,
            p.revision.ordered_paragraphs.len() > 0,
            p.revision.id,
            p.revision.original_adds as nat,
            q.tokens,
        );
        let ended = if s.0.len() == 0 {
            u.matched.tokens
        } else {
            w.tokens
        };
        if s.0.len() > 0 {
            assert(ids_below(over, d.sentences.len() as int));
            lemma_word_level_told(
                d,
                sids,
                m,
                over,
                p.revision.ordered_paragraphs.len() > 0,
                p.revision.id,
                p.revision.original_adds as nat,
                u.matched.tokens,
            );
        }
        assert(words_told(d, sids, m, x, u.matched.tokens, b, ended));
        if !out.vandalism {
            lemma_settles_late(a, prev, p, u, over, b, ended, r, out);
        } else {
            assert(b == d);
        }
    }
}

/// Where the sentence level ran.
proof fn lemma_settles_late(
    a: ArticleView,
    prev: RevisionView,
    p: ParagraphState,
    u: SentenceState,
    over: Seq<usize>,
    b: ArticleView,
    tokens: Set<usize>,
    r: RevisionView,
    out: CascadeView,
)
    requires
        is_linked(a),
        is_distinct_revision(a, prev),
        paragraphs_told(a, p),
        sentences_told(
            a,
            p.article,
            ordered_ids(p.revision.paragraphs, p.revision.ordered_paragraphs),
            p.matched_prev,
            p.matched.paragraphs,
            u,
        ),
        is_linked(u.article),
        over == sentences_left_in(
            u.article,
            paragraphs_left(prev, p.matched),
            0,
            u.matched.sentences,
            Seq::empty(),
        ).1,
        words_told(
            u.article,
            text_sentences(
                u.article.paragraphs,
                ordered_ids(p.revision.paragraphs, p.revision.ordered_paragraphs),
            ),
            a.sentences.len() as int,
            word_context(
                u.article,
                a.sentences.len() as int,
                over,
                p.revision.id,
                u.matched.tokens,
            ),
            u.matched.tokens,
            b,
            tokens,
        ),
        is_kept(a, b),
        r == (RevisionView { original_adds: r.original_adds, ..p.revision }),
        out.matched_paragraphs_prev == p.matched_prev,
        out.unmatched_paragraphs_prev == paragraphs_left(prev, p.matched),
        out.matched_sentences_prev == u.matched_prev + over,
        out.unmatched_sentences_prev == over,
        out.matched_token_ids == tokens,
    ensures
        is_settled(a, prev, b, r, out),
{
    let d = u.article;
    let m = a.sentences.len() as int;
    let left = paragraphs_left(prev, p.matched);
    let pids = ordered_ids(p.revision.paragraphs, p.revision.ordered_paragraphs);
    let sids = text_sentences(d.paragraphs, pids);
    assert(d.tokens == a.tokens);
    lemma_left_distinct(a, prev, p.matched);
    assert(ids_below(left, a.paragraphs.len() as int));
    lemma_over_below(a, d, left, u.matched.sentences);
    assert forall|y: usize| y < a.tokens.len() implies #[trigger] is_accounted(
        a,
        prev,
        b,
        r,
        out,
        y,
    ) by {
        lemma_accounts(a, prev, p, u, over, b, tokens, r, out, y);
    }
    lemma_text_sentences(b, pids);
    assert(revision_tokens(b, r) == words_of(b.sentences, sids));
    assert forall|y: int| a.tokens.len() <= y < b.tokens.len() implies is_fresh(
        #[trigger] b.tokens[y],
        r.id,
    ) && revision_tokens(b, r).contains(y as usize) by {
        assert(is_fresh(b.tokens[y], p.revision.id));
        lemma_count_found(words_of(b.sentences, sids), y as usize);
    }
    assert(ids_below(out.matched_sentences_prev, m));
    lemma_listed_below(a, b, out);
}

/// Where the paragraph level finds everything.
proof fn lemma_settles_early(
    a: ArticleView,
    prev: RevisionView,
    p: ParagraphState,
    r: RevisionView,
    out: CascadeView,
)
    requires
        is_linked(a),
        a.tokens.len() <= usize::MAX,
        is_distinct_revision(a, prev),
        paragraphs_told(a, p),
        p.unmatched_curr.len() == 0,
        r == p.revision,
        out.matched_paragraphs_prev == p.matched_prev,
        out.unmatched_paragraphs_prev == paragraphs_left(prev, p.matched),
        out.matched_sentences_prev == Seq::<usize>::empty(),
        out.unmatched_sentences_prev == Seq::<usize>::empty(),
        out.matched_token_ids == p.matched.tokens,
    ensures
        is_settled(a, prev, p.article, r, out),
{
    let b = p.article;
    let left = paragraphs_left(prev, p.matched);
    assert(b.paragraphs =~= a.paragraphs);
    assert(b == a);
    lemma_left_distinct(a, prev, p.matched);
    assert(ids_below(left, a.paragraphs.len() as int));
    lemma_listed_below(a, a, out);
    assert forall|y: usize| y < a.tokens.len() implies #[trigger] is_accounted(
        a,
        prev,
        b,
        r,
        out,
        y,
    ) by {
        let used = revision_tokens(b, r);
        lemma_count_found(used, y);
        if used.contains(y) {
            assert(p.matched.tokens.contains(y));
            lemma_add_contains(
                words_of(b.sentences, sentences_in(b, p.matched_prev)),
                words_of(b.sentences, out.matched_sentences_prev),
                y,
            );
        } else {
            assert(!p.matched.tokens.contains(y));
            if revision_tokens(a, prev).contains(y) {
                let pid = lemma_prev_left(a, prev, p.matched, y);
                lemma_listed_words(a, left, pid, y);
            }
            if words_left(b, out).contains(y) {
                lemma_left_words(a, prev, p.matched, y);
            }
        }
    }
}

pub(crate) proof fn lemma_paragraphs_filed_kept(c: ArticleView, pids: Seq<usize>, k: int)
    requires
        0 <= k,
        ids_below(pids, c.paragraphs.len() as int),
    ensures
        ({
            let d = paragraphs_filed(c, pids, k);
            &&& is_kept(c, d)
            &&& d == (ArticleView {
                paragraphs: d.paragraphs,
                paragraphs_ht: d.paragraphs_ht,
                ..c
            })
        }),
    decreases pids.len() - k,
{
    if k < pids.len() {
        let p = c.paragraphs[pids[k] as int];
        let x = ArticleView {
            paragraphs_ht: with_id(c.paragraphs_ht, p.hash_value, pids[k]),
            ..c.set_paragraph(pids[k] as int, ParagraphView { value: Seq::empty(), ..p })
        };
        lemma_paragraphs_filed_kept(x, pids, k + 1);
        assert(is_kept(c, x));
        lemma_kept_trans(c, x, paragraphs_filed(c, pids, k));
    }
}

pub(crate) proof fn lemma_sentences_filed_kept(c: ArticleView, sids: Seq<usize>, k: int)
    requires
        0 <= k,
        ids_below(sids, c.sentences.len() as int),
    ensures
        ({
            let d = sentences_filed(c, sids, k);
            &&& is_kept(c, d)
            &&& d == (ArticleView { sentences: d.sentences, sentences_ht: d.sentences_ht, ..c })
        }),
    decreases sids.len() - k,
{
    if k < sids.len() {
        let s = c.sentences[sids[k] as int];
        let x = ArticleView {
            sentences_ht: with_id(c.sentences_ht, s.hash_value, sids[k]),
            ..c.set_sentence(sids[k] as int, SentenceView { value: Seq::empty(), ..s })
        };
        lemma_sentences_filed_kept(x, sids, k + 1);
        assert(is_kept(c, x));
        lemma_kept_trans(c, x, sentences_filed(c, sids, k));
    }
}

/// Whether the tokens of the last good revision are those last seen there.
pub open spec fn is_dated(a: ArticleView) -> bool {
    forall|y: usize|
        y < a.tokens.len() ==> ((#[trigger] a.tokens[y as int]).last_rev_id == last_good(a).id
            <==> revision_tokens(a, last_good(a)).contains(y))
}

/// Whether no token has met the revision `rev`.
pub open spec fn is_unmet(a: ArticleView, rev: u64) -> bool {
    forall|y: int|
        0 <= y < a.tokens.len() ==> (#[trigger] a.tokens[y]).last_rev_id != rev
            && !a.tokens[y].outbound.contains(rev)
}

/// What the revision `rev` makes of the token `w`: where it holds the token, the
/// token was last seen there, and came back there if it was not in the revision
/// before; where it does not but the revision before did, it removed the token; else
/// nothing happens.
pub open spec fn is_turned(w: WordView, v: WordView, was: bool, now: bool, rev: u64) -> bool {
    if now {
        v == (WordView {
            inbound: if was {
                w.inbound
            } else {
                w.inbound.push(rev)
            },
            last_rev_id: rev,
            ..w
        })
    } else if was {
        &&& v.outbound.len() > w.outbound.len()
        &&& v == (WordView {
            outbound: w.outbound + Seq::new(
                (v.outbound.len() - w.outbound.len()) as nat,
                |k: int| rev,
            ),
            ..w
        })
    } else {
        v == w
    }
}

/// Whether each token of `a` went on in `e` as the last good revisions of the two, of
/// which the later is `rev`, say.
pub open spec fn are_turned(a: ArticleView, e: ArticleView, rev: u64) -> bool {
    let before = revision_tokens(a, last_good(a));
    let after = revision_tokens(e, last_good(e));
    &&& a.tokens.len() <= e.tokens.len()
    &&& forall|y: usize|
        y < a.tokens.len() ==> is_turned(
            a.tokens[y as int],
            #[trigger] e.tokens[y as int],
            before.contains(y),
            after.contains(y),
            rev,
        )
}

/// Whether the tokens that `e` has beyond those of `a` are new in the revision `rev`
/// and stand in the last good revision. Each has an id.
pub open spec fn are_new(a: ArticleView, e: ArticleView, rev: u64) -> bool {
    &&& e.tokens.len() <= usize::MAX
    &&& forall|y: usize|
        a.tokens.len() <= y < e.tokens.len() ==> is_fresh(#[trigger] e.tokens[y as int], rev)
            && revision_tokens(e, last_good(e)).contains(y)
}

/// What the analysis of a revision writes into one earlier token.
proof fn lemma_turned(
    a: ArticleView,
    prev: RevisionView,
    b: ArticleView,
    r: RevisionView,
    out: CascadeView,
    y: usize,
)
    requires
        is_settled(a, prev, b, r, out),
        !out.vandalism,
        is_unmet(a, r.id),
        y < a.tokens.len(),
        a.tokens[y as int].last_rev_id == prev.id <==> revision_tokens(a, prev).contains(y),
    ensures
        is_turned(
            a.tokens[y as int],
            recorded(b, out, prev.id, r.id).tokens[y as int],
            revision_tokens(a, prev).contains(y),
            revision_tokens(b, r).contains(y),
            r.id,
        ),
{
    let w = a.tokens[y as int];
    let left = words_left(b, out);
    let held = words_held(b, out);
    let v = recorded(b, out, prev.id, r.id).tokens[y as int];
    assert(is_accounted(a, prev, b, r, out, y));
    assert(v == word_recorded(
        b.tokens[y as int],
        y,
        left,
        held,
        out.matched_token_ids,
        prev.id,
        r.id,
    ));
    if w.outbound.len() > 0 {
        assert(w.outbound.contains(w.outbound.last()));
    }
    lemma_count_found(left, y);
    let extra = Seq::new(count_of(left, y), |k: int| r.id);
    if revision_tokens(b, r).contains(y) {
        assert(v == word_kept(w, prev.id, r.id));
    } else if out.matched_token_ids.contains(y) {
        assert(v == dropped(w, r.id));
        assert(v.outbound =~= w.outbound + Seq::new(1, |k: int| r.id));
    } else {
        assert(v == word_deleted(w, y, left, out.matched_token_ids, r.id));
        assert(v.outbound == w.outbound + extra);
        if count_of(left, y) == 0 {
            assert(v.outbound =~= w.outbound);
        } else {
            assert(v.outbound =~= w.outbound + Seq::new(
                (v.outbound.len() - w.outbound.len()) as nat,
                |k: int| r.id,
            ));
        }
    }
}

/// The lists of a token tell when it was removed and put back. A stored revision
/// notes its return in every token that it holds and the revision before did not,
/// its removal in every token that the revision before held and it does not, and
/// leaves all others alone; the tokens beyond are new, and it holds them all. The
/// revision must be one that no token has met.
pub proof fn lists_tell_what_happened(a: ArticleView, i: InputView)
    requires
        is_unique(a),
        is_dated(a),
        is_unmet(a, i.rev_id),
        has_room_for(a, i),
    ensures
        is_dated(analysed(a, i).0),
        analysed(a, i).1 is Vandalism ==> analysed(a, i).0.tokens == a.tokens,
        analysed(a, i).1 is Stored ==> are_turned(a, analysed(a, i).0, i.rev_id),
        analysed(a, i).1 is Stored ==> are_new(a, analysed(a, i).0, i.rev_id),
{
    let text = lowercase(i.text);
    let prev = last_good(a);
    let rev = i.rev_id;
    let (e, outcome) = analysed(a, i);
    assert(is_distinct_revision(a, prev)) by {
        if !a.revisions.contains_key(a.last_good_rev_id) {
            let ids = ordered_ids(prev.paragraphs, prev.ordered_paragraphs);
            assert(ids =~= Seq::<usize>::empty());
            assert(revision_tokens(a, prev) =~= Seq::<usize>::empty());
        }
    }
    lemma_revision_below(a, prev);
    let old_ids = ordered_ids(prev.paragraphs, prev.ordered_paragraphs);
    if a.spam_hashes.contains(content_hash(i)) || is_shrink(
        prev.length as int,
        i.text.len() as int,
        has_comment(i),
        i.minor,
    ) {
        assert(is_kept(a, e));
        lemma_kept_paragraphs(a, e, old_ids);
    } else {
        let (b, r, out) = authorship(a, text, prev, blank_revision(i));
        lemma_cascade_once(a, text, prev, blank_revision(i));
        lemma_cascade_settles(a, text, prev, blank_revision(i));
        if out.vandalism {
            assert(is_kept(a, e));
            lemma_kept_paragraphs(a, e, old_ids);
        } else {
            let c = recorded(b, out, prev.id, rev);
            let d = paragraphs_filed(c, out.unmatched_paragraphs_curr, 0);
            let f = sentences_filed(d, out.unmatched_sentences_curr, 0);
            let ids = ordered_ids(r.paragraphs, r.ordered_paragraphs);
            lemma_paragraphs_filed_kept(c, out.unmatched_paragraphs_curr, 0);
            lemma_sentences_filed_kept(d, out.unmatched_sentences_curr, 0);
            assert(is_kept(b, c));
            lemma_kept_trans(b, c, d);
            lemma_kept_trans(b, d, f);
            assert(is_kept(b, e));
            lemma_revision_below(b, r);
            lemma_kept_paragraphs(b, e, ids);
            assert(last_good(e) == r);
            let after = revision_tokens(e, r);
            assert(after == revision_tokens(b, r));
            assert(e.tokens == c.tokens);
            assert forall|y: usize| y < a.tokens.len() implies is_turned(
                a.tokens[y as int],
                #[trigger] e.tokens[y as int],
                revision_tokens(a, prev).contains(y),
                after.contains(y),
                rev,
            ) by {
                assert(a.tokens[y as int].last_rev_id == prev.id <==> revision_tokens(
                    a,
                    prev,
                ).contains(y));
                lemma_turned(a, prev, b, r, out, y);
            }
            assert forall|y: usize| a.tokens.len() <= y < e.tokens.len() implies is_fresh(
                #[trigger] e.tokens[y as int],
                rev,
            ) && after.contains(y) by {
                assert(is_fresh(b.tokens[y as int], r.id));
                lemma_unlisted(a, b, out, prev.id, rev, y);
            }
            assert(are_new(a, e, rev));
            assert forall|y: usize| y < e.tokens.len() implies ((
            #[trigger] e.tokens[y as int]).last_rev_id == r.id <==> after.contains(y)) by {
                if y < a.tokens.len() {
                    assert(a.tokens[y as int].last_rev_id != rev);
                    assert(is_turned(
                        a.tokens[y as int],
                        e.tokens[y as int],
                        revision_tokens(a, prev).contains(y),
                        after.contains(y),
                        rev,
                    ));
                } else {
                    assert(is_fresh(e.tokens[y as int], rev));
                }
            }
        }
    }
}

/// A new token is not listed, so that nothing is noted in it.
proof fn lemma_unlisted(
    a: ArticleView,
    b: ArticleView,
    out: CascadeView,
    prev: u64,
    rev: u64,
    y: usize,
)
    requires
        !out.vandalism,
        ids_below(words_left(b, out), a.tokens.len() as int),
        ids_below(words_held(b, out), a.tokens.len() as int),
        a.tokens.len() <= y < b.tokens.len(),
        is_fresh(b.tokens[y as int], rev),
    ensures
        is_fresh(recorded(b, out, prev, rev).tokens[y as int], rev),
{
    let left = words_left(b, out);
    let held = words_held(b, out);
    lemma_count_found(left, y);
    if left.contains(y) {
        let k = choose|k: int| 0 <= k < left.len() && left[k] == y;
        assert(left[k] < a.tokens.len());
    }
    if held.contains(y) {
        let k = choose|k: int| 0 <= k < held.len() && held[k] == y;
        assert(held[k] < a.tokens.len());
    }
}

/// What is matched is read, and stays so when more is.
proof fn lemma_sought_read(
    a: ArticleView,
    p: ParagraphState,
    u: SentenceState,
    b: ArticleView,
    r: RevisionView,
)
    requires
        paragraphs_told(a, p),
        sentences_told(
            a,
            p.article,
            ordered_ids(p.revision.paragraphs, p.revision.ordered_paragraphs),
            p.matched_prev,
            p.matched.paragraphs,
            u,
        ),
        is_linked(a),
        is_kept(a, b),
        b.paragraphs == u.article.paragraphs,
        b.sentences.len() == u.article.sentences.len(),
        forall|i: int|
            0 <= i < b.sentences.len() ==> (#[trigger] b.sentences[i]).hash_value
                == u.article.sentences[i].hash_value
                && u.article.sentences[i].words.is_prefix_of(b.sentences[i].words),
        forall|i: int|
            0 <= i < p.article.paragraphs.len() ==> (#[trigger] b.paragraphs[i]).hash_value
                == p.article.paragraphs[i].hash_value,
        r.paragraphs == p.revision.paragraphs,
        r.ordered_paragraphs == p.revision.ordered_paragraphs,
    ensures
        sentences_sought(a, b, revision_tokens(b, r).to_set()),
        paragraphs_sought(a, b, revision_tokens(b, r).to_set()),
{
    let c = p.article;
    let d = u.article;
    let pids = ordered_ids(p.revision.paragraphs, p.revision.ordered_paragraphs);
    let sids = text_sentences(d.paragraphs, pids);
    let used = revision_tokens(b, r);
    lemma_text_sentences(b, pids);
    assert(used == words_of(b.sentences, sids));
    assert forall|x: usize| #[trigger] u.matched.tokens.contains(x) implies used.contains(x) by {
        let read = words_of(d.sentences, sids);
        assert(count_of(read, x) > 0);
        lemma_count_found(read, x);
        let i = lemma_words_from(d.sentences, sids, x);
        let ws = d.sentences[sids[i] as int].words;
        let more = b.sentences[sids[i] as int].words;
        assert(sids[i] < d.sentences.len());
        let k = choose|k: int| 0 <= k < ws.len() && ws[k] == x;
        assert(ws.is_prefix_of(more));
        assert(more[k] == x);
        lemma_count_found(more, x);
        lemma_words_part(b.sentences, sids, i, x);
        lemma_count_found(used, x);
    }
    assert forall|x: usize| #[trigger] p.matched.tokens.contains(x) implies used.contains(x) by {
        let read = tokens_of_paragraphs(c, pids);
        assert(count_of(read, x) > 0);
        lemma_count_found(read, x);
        let i = lemma_tokens_from(c, pids, x);
        let pid = pids[i];
        assert(pid < c.paragraphs.len());
        if pid >= a.paragraphs.len() {
            let q = c.paragraphs[pid as int];
            assert(q.ordered_sentences =~= Seq::empty());
            assert(ordered_ids(q.sentences, q.ordered_sentences) =~= Seq::<usize>::empty());
            assert(text_words(c, q) =~= Seq::<usize>::empty());
        }
        assert(c.paragraphs[pid as int] == a.paragraphs[pid as int]);
        assert(text_words(c, c.paragraphs[pid as int]) == text_words(a, a.paragraphs[pid as int]));
        crate::uniqueness::lemma_kept_text(a, b, pid);
        lemma_paragraph_part(b, pids, i, x);
        lemma_count_found(used, x);
    }
    assert forall|i: int, j: int|
        a.sentences.len() <= i < b.sentences.len() && 0 <= j < bucket(
            a.sentences_ht,
            b.sentences[i].hash_value,
        ).len() implies sentence_in_use(
        a,
        #[trigger] bucket(a.sentences_ht, b.sentences[i].hash_value)[j],
        used.to_set(),
    ) by {
        let sid = bucket(a.sentences_ht, b.sentences[i].hash_value)[j];
        assert(bucket(a.sentences_ht, d.sentences[i].hash_value)[j] == sid);
        assert(sentence_in_use(a, sid, u.matched.tokens));
        let ws = a.sentences[sid as int].words;
        if ws.len() > 0 {
            let k = choose|k: int| 0 <= k < ws.len() && u.matched.tokens.contains(#[trigger] ws[k]);
            assert(used.to_set().contains(ws[k]));
        }
    }
    assert forall|i: int, j: int|
        a.paragraphs.len() <= i < b.paragraphs.len() && 0 <= j < bucket(
            a.paragraphs_ht,
            b.paragraphs[i].hash_value,
        ).len() implies paragraph_in_use(
        a,
        #[trigger] bucket(a.paragraphs_ht, b.paragraphs[i].hash_value)[j],
        used.to_set(),
    ) by {
        let pid = bucket(a.paragraphs_ht, b.paragraphs[i].hash_value)[j];
        assert(bucket(a.paragraphs_ht, c.paragraphs[i].hash_value)[j] == pid);
        assert(paragraph_in_use(a, pid, p.matched.tokens));
        let ws = paragraph_words(a, pid);
        if ws.len() > 0 {
            let k = choose|k: int| 0 <= k < ws.len() && p.matched.tokens.contains(#[trigger] ws[k]);
            assert(used.to_set().contains(ws[k]));
        }
    }
}

/// The cascade on a text: what is new could not have been reused.
pub(crate) proof fn lemma_cascade_seeks(
    a: ArticleView,
    text: Seq<char>,
    prev: RevisionView,
    curr: RevisionView,
)
    requires
        is_unique(a),
        is_distinct_revision(a, prev),
        curr.paragraphs.len() == 0,
        curr.ordered_paragraphs.len() == 0,
        has_room(a, text, prev, curr),
    ensures
        ({
            let (b, r, out) = authorship(a, text, prev, curr);
            !out.vandalism ==> {
                &&& sentences_sought(a, b, revision_tokens(b, r).to_set())
                &&& paragraphs_sought(a, b, revision_tokens(b, r).to_set())
            }
        }),
{
    let p = paragraph_level(a, text, prev, curr, nothing_matched());
    let c = p.article;
    let left = paragraphs_left(prev, p.matched);
    let pids = ordered_ids(p.revision.paragraphs, p.revision.ordered_paragraphs);
    let (b, r, out) = authorship(a, text, prev, curr);
    lemma_cascade_once(a, text, prev, curr);
    lemma_paragraph_level_told(a, text, prev, curr);
    lemma_left_distinct(a, prev, p.matched);
    assert(ids_below(left, a.paragraphs.len() as int));
    let s0 = SentenceState {
        article: c,
        matched: p.matched,
        unmatched_curr: Seq::empty(),
        matched_prev: Seq::empty(),
        total: 0,
    };
    let u = sentence_pass(c, p.unmatched_curr, left, p.matched);
    assert(ids_below(p.unmatched_curr, c.paragraphs.len() as int));
    lemma_sentence_paragraphs_grow(s0, p.unmatched_curr, left, 0);
    lemma_sentences_begin(a, p);
    lemma_text_sentences(c, pids);
    assert(sentences_told(a, c, pids, p.matched_prev, p.matched.paragraphs, s0));
    lemma_sentence_level_told(
        a,
        c,
        pids,
        p.matched_prev,
        p.matched.paragraphs,
        s0,
        left,
        0,
    );
    let d = u.article;
    lemma_sentences_linked(a, c, pids, u);
    if p.unmatched_curr.len() == 0 {
        assert(u == s0);
        if !out.vandalism {
            lemma_sought_read(a, p, u, b, r);
        }
    } else {
        let (z, q, s) = sentence_level(c, p.unmatched_curr, left, p.matched);
        if s.0.len() > 0 {
            lemma_over_below(a, d, left, u.matched.sentences);
            assert(ids_below(s.0, d.sentences.len() as int));
            assert(ids_below(s.1, d.sentences.len() as int));
            lemma_word_level_grows(
                d,
                s.0,
                s.1,
                p.revision.ordered_paragraphs.len() > 0,
                p.revision.id,
                p.revision.original_adds as nat,
                q.tokens,
            );
            if !out.vandalism {
                lemma_word_count(
                    d,
                    s.0,
                    s.1,
                    p.revision.ordered_paragraphs.len() > 0,
                    p.revision.id,
                    p.revision.original_adds as nat,
                    q.tokens,
                );
            }
        }
        if !out.vandalism {
            lemma_sought_read(a, p, u, b, r);
        }
    }
}

/// The word level adds no sentence.
proof fn lemma_word_count(
    a: ArticleView,
    curr: Seq<usize>,
    prev: Seq<usize>,
    suspect: bool,
    rev: u64,
    adds: nat,
    tokens: Set<usize>,
)
    requires
        forall|i: int|
            0 <= i < a.sentences.len() ==> ids_below(
                (#[trigger] a.sentences[i]).words,
                a.tokens.len() as int,
            ),
        ids_below(curr, a.sentences.len() as int),
        ids_below(prev, a.sentences.len() as int),
    ensures
        word_level(a, curr, prev, suspect, rev, adds, tokens).article.sentences.len()
            == a.sentences.len(),
{
    let ws = sentence_words(a, curr);
    let ids = not_in(words_of(a.sentences, prev), tokens);
    crate::cascade::lemma_sentence_words_below(a, curr);
    lemma_words_below(a.sentences, prev, a.tokens.len() as int);
    lemma_not_in_below(words_of(a.sentences, prev), tokens, a.tokens.len() as int);
    lemma_words_added_count(a, ws, 0, rev);
    let c = WordContext {
        prev_ids: ids,
        prev_texts: word_values(a, ids),
        ops: transcript(word_values(a, ids), words_only(ws)),
        rev,
    };
    let s = WordState {
        article: a,
        tokens,
        words: Seq::empty(),
        used: Seq::new(c.ops.len(), |i: int| false),
        adds,
    };
    lemma_word_steps_count(s, c, ws, 0);
}

proof fn lemma_words_added_count(
    a: ArticleView,
    ws: Seq<(usize, Seq<char>)>,
    k: int,
    rev: u64,
)
    requires
        forall|i: int| 0 <= i < ws.len() ==> (#[trigger] ws[i]).0 < a.sentences.len(),
    ensures
        words_added(a, ws, k, rev).sentences.len() == a.sentences.len(),
    decreases ws.len() - k,
{
    if 0 <= k < ws.len() {
        lemma_word_add_grows(a, ws[k].0, ws[k].1, rev);
        lemma_words_added_count(word_added(a, ws[k].0, ws[k].1, rev), ws, k + 1, rev);
    }
}

proof fn lemma_word_steps_count(
    s: WordState,
    c: WordContext,
    ws: Seq<(usize, Seq<char>)>,
    k: int,
)
    requires
        forall|i: int| 0 <= i < ws.len() ==> (#[trigger] ws[i]).0 < s.article.sentences.len(),
        ids_below(c.prev_ids, s.article.tokens.len() as int),
    ensures
        word_steps(s, c, ws, k).article.sentences.len() == s.article.sentences.len(),
    decreases ws.len() - k,
{
    if 0 <= k < ws.len() {
        let (sid, word) = ws[k];
        let u = scan_steps(s, c, sid, word, 0).0;
        let t = word_step(s, c, sid, word);
        assert(ws[k].0 < s.article.sentences.len());
        lemma_scan_steps_grow(s, c, sid, word, 0);
        lemma_word_add_grows(u.article, sid, word, c.rev);
        assert(s.article.tokens.len() <= t.article.tokens.len());
        assert(ids_below(c.prev_ids, t.article.tokens.len() as int));
        lemma_word_steps_count(t, c, ws, k + 1);
    }
}

} // verus!
