//! How often a token occurs in a revision: once at most.
use crate::buckets::{all_ids, bucket, lemma_position, position, with_bucket, with_id, Entries};
use crate::cascade::{
    all_matched, any_matched, authorship, find_paragraph, find_prev, find_sentence, is_dense, lemma_find_prev,
    lemma_not_in_below, lemma_paragraph_steps_grow, lemma_scan_steps_grow,
    lemma_sentence_paragraphs_grow, lemma_sentence_steps_grow, lemma_word_add_grows,
    lemma_word_steps_grow, lemma_words_added_grow, normalized, not_in, nothing_matched,
    paragraph_level, paragraph_step, paragraph_steps, paragraph_words, paragraphs_left, recorded,
    scan_in_paragraphs, scan_paragraphs, scan_sentences,
    scan_steps, sentence_level, sentence_paragraphs, sentence_pass, sentence_step, sentence_steps, sentence_words, step_text,
    word_added, word_attached, word_level, word_step, word_steps, word_values, words_added,
    words_only, ParagraphState, SentenceState, WordContext, WordState,
};
use crate::differ::transcript;
use crate::matcher::count_of;
use crate::outside::{lowercase, md5_hex};
use crate::pipeline::{
    analysed, blank_revision, content_hash, has_comment, last_good, paragraphs_filed,
    sentences_filed, InputView,
};
use crate::readback::{
    aligned, all_filed, has_room, has_room_for, is_linked, lemma_aligned_more, lemma_count_before,
    lemma_filed_bucket, lemma_filed_more, lemma_filed_weaker, lemma_left_in_below,
    lemma_not_in_among, lemma_ordered_such, lemma_words_are_new, new_ids, solid_paragraphs,
    text_words, words_go_to_new,
};
use crate::spam::is_shrink;
use crate::structures::{
    entries_below, ids_below, ids_from, lemma_ordered_below, lemma_words_below, revision_tokens, ordered_ids, tokens_of_paragraphs, words_of, ArticleView, MatchedView,
    ParagraphView, RevisionView, SentenceView, WordView,
};
use crate::text::trimmed;
use crate::tokenize::{paragraphs_of, sentences_of};
use crate::transcript::Step;
use vstd::prelude::*;

verus! {

/// Whether nothing occurs twice.
pub open spec fn once(s: Seq<usize>) -> bool {
    forall|x: usize| #[trigger] count_of(s, x) <= 1
}

pub(crate) proof fn lemma_count_add(s: Seq<usize>, t: Seq<usize>, x: usize)
    ensures
        count_of(s + t, x) == count_of(s, x) + count_of(t, x),
    decreases t.len(),
{
    if t.len() == 0 {
        assert(s + t =~= s);
    } else {
        assert((s + t).drop_last() =~= s + t.drop_last());
        assert((s + t).last() == t.last());
        lemma_count_add(s, t.drop_last(), x);
    }
}

pub(crate) proof fn lemma_count_one(s: Seq<usize>, id: usize, x: usize)
    ensures
        count_of(s.push(id), x) == count_of(s, x) + if x == id {
            1nat
        } else {
            0
        },
{
    assert(s.push(id).drop_last() =~= s);
}

pub(crate) proof fn lemma_count_found(s: Seq<usize>, x: usize)
    ensures
        count_of(s, x) > 0 <==> s.contains(x),
    decreases s.len(),
{
    if s.len() > 0 {
        lemma_count_found(s.drop_last(), x);
        if s.drop_last().contains(x) {
            let i = choose|i: int| 0 <= i < s.drop_last().len() && s.drop_last()[i] == x;
            assert(s[i] == x);
        }
        if s.contains(x) && s.last() != x {
            let i = choose|i: int| 0 <= i < s.len() && s[i] == x;
            assert(s.drop_last()[i] == x);
        }
        if s.last() == x {
            assert(s[s.len() - 1] == x);
        }
    }
}

/// The tokens of one of the sentences are counted among those of all.
pub(crate) proof fn lemma_words_part(sentences: Seq<SentenceView>, sids: Seq<usize>, i: int, x: usize)
    requires
        0 <= i < sids.len(),
    ensures
        count_of(sentences[sids[i] as int].words, x) <= count_of(words_of(sentences, sids), x),
    decreases sids.len(),
{
    let less = sids.drop_last();
    lemma_count_add(words_of(sentences, less), sentences[sids.last() as int].words, x);
    if i < less.len() {
        assert(less[i] == sids[i]);
        lemma_words_part(sentences, less, i, x);
    }
}

pub(crate) proof fn lemma_words_add(sentences: Seq<SentenceView>, s: Seq<usize>, t: Seq<usize>)
    ensures
        words_of(sentences, s + t) == words_of(sentences, s) + words_of(sentences, t),
    decreases t.len(),
{
    if t.len() == 0 {
        assert(s + t =~= s);
        assert(words_of(sentences, s) + words_of(sentences, t) =~= words_of(sentences, s));
    } else {
        assert((s + t).drop_last() =~= s + t.drop_last());
        assert((s + t).last() == t.last());
        lemma_words_add(sentences, s, t.drop_last());
        assert(words_of(sentences, s + t) =~= words_of(sentences, s) + words_of(sentences, t));
    }
}

/// The sentences of the paragraphs `pids` in the order of the text.
pub open spec fn text_sentences(paragraphs: Seq<ParagraphView>, pids: Seq<usize>) -> Seq<usize>
    decreases pids.len(),
{
    if pids.len() == 0 {
        Seq::empty()
    } else {
        let p = paragraphs[pids.last() as int];
        text_sentences(paragraphs, pids.drop_last()) + ordered_ids(
            p.sentences,
            p.ordered_sentences,
        )
    }
}

pub(crate) proof fn lemma_text_sentences(b: ArticleView, pids: Seq<usize>)
    ensures
        tokens_of_paragraphs(b, pids) == words_of(
            b.sentences,
            text_sentences(b.paragraphs, pids),
        ),
    decreases pids.len(),
{
    if pids.len() > 0 {
        let p = b.paragraphs[pids.last() as int];
        lemma_text_sentences(b, pids.drop_last());
        lemma_words_add(
            b.sentences,
            text_sentences(b.paragraphs, pids.drop_last()),
            ordered_ids(p.sentences, p.ordered_sentences),
        );
    }
}

/// The tokens of one of the paragraphs are counted among those of all.
pub(crate) proof fn lemma_paragraph_part(b: ArticleView, pids: Seq<usize>, i: int, x: usize)
    requires
        0 <= i < pids.len(),
    ensures
        count_of(text_words(b, b.paragraphs[pids[i] as int]), x) <= count_of(
            tokens_of_paragraphs(b, pids),
            x,
        ),
    decreases pids.len(),
{
    let less = pids.drop_last();
    lemma_count_add(
        tokens_of_paragraphs(b, less),
        text_words(b, b.paragraphs[pids.last() as int]),
        x,
    );
    if i < less.len() {
        assert(less[i] == pids[i]);
        lemma_paragraph_part(b, less, i, x);
    }
}

pub(crate) proof fn lemma_all_ids_found(e: Entries, k: int, j: int)
    requires
        0 <= k < e.len(),
        0 <= j < e[k].1.len(),
    ensures
        all_ids(e).contains(e[k].1[j]),
    decreases e.len(),
{
    let less = e.drop_last();
    let all = all_ids(e);
    if k < less.len() {
        assert(less[k] == e[k]);
        lemma_all_ids_found(less, k, j);
        let i = choose|i: int| 0 <= i < all_ids(less).len() && all_ids(less)[i] == e[k].1[j];
        assert(all[i] == e[k].1[j]);
    } else {
        assert(all[all_ids(less).len() + j] == e[k].1[j]);
    }
}

/// What hashes stand for is filed.
pub(crate) proof fn lemma_ordered_filed(e: Entries, ordered: Seq<Seq<char>>, i: int, j: int)
    requires
        0 <= j < ids_from(e, ordered, i).len(),
    ensures
        all_ids(e).contains(ids_from(e, ordered, i)[j]),
    decreases ordered.len() - i,
{
    if 0 <= i < ordered.len() {
        let rest = ids_from(e, ordered, i + 1);
        let b = bucket(e, ordered[i]);
        let nth = count_of(ordered.take(i), ordered[i]);
        lemma_position(e, ordered[i]);
        if nth < b.len() {
            if j == 0 {
                lemma_all_ids_found(e, position(e, ordered[i]), nth as int);
            } else {
                assert(ids_from(e, ordered, i)[j] == rest[j - 1]);
                lemma_ordered_filed(e, ordered, i + 1, j - 1);
            }
        } else {
            lemma_ordered_filed(e, ordered, i + 1, j);
        }
    }
}

pub(crate) proof fn lemma_words_among(sentences: Seq<SentenceView>, s: Seq<usize>, t: Seq<usize>, x: usize)
    requires
        forall|i: int| 0 <= i < s.len() ==> t.contains(#[trigger] s[i]),
        words_of(sentences, s).contains(x),
    ensures
        words_of(sentences, t).contains(x),
    decreases s.len(),
{
    lemma_count_found(words_of(sentences, s), x);
    lemma_count_found(words_of(sentences, t), x);
    if s.len() > 0 {
        let less = s.drop_last();
        let last = sentences[s.last() as int].words;
        lemma_count_add(words_of(sentences, less), last, x);
        if count_of(last, x) > 0 {
            assert(t.contains(s[s.len() - 1]));
            let k = choose|k: int| 0 <= k < t.len() && t[k] == s.last();
            lemma_words_part(sentences, t, k, x);
        } else {
            lemma_count_found(words_of(sentences, less), x);
            assert forall|i: int| 0 <= i < less.len() implies t.contains(#[trigger] less[i]) by {
                assert(less[i] == s[i]);
            }
            lemma_words_among(sentences, less, t, x);
        }
    }
}

/// The tokens of a paragraph in the order of its text are among its tokens.
pub(crate) proof fn lemma_text_among(b: ArticleView, pid: usize, x: usize)
    requires
        count_of(text_words(b, b.paragraphs[pid as int]), x) > 0,
    ensures
        paragraph_words(b, pid).contains(x),
{
    let p = b.paragraphs[pid as int];
    let sids = ordered_ids(p.sentences, p.ordered_sentences);
    let all = all_ids(p.sentences);
    assert forall|j: int| 0 <= j < sids.len() implies all.contains(#[trigger] sids[j]) by {
        lemma_ordered_filed(p.sentences, p.ordered_sentences, 0, j);
    }
    lemma_count_found(words_of(b.sentences, sids), x);
    lemma_words_among(b.sentences, sids, all, x);
}

/// A sentence in which no token occurs twice.
pub open spec fn distinct_sentence(a: ArticleView) -> spec_fn(Seq<char>, usize) -> bool {
    |hash: Seq<char>, sid: usize|
        sid < a.sentences.len() && once(a.sentences[sid as int].words)
}

/// Whether no token occurs twice in the paragraph `pid`, nor in any of its
/// sentences, and the order names all its sentences.
pub open spec fn is_distinct(a: ArticleView, pid: usize) -> bool {
    let p = a.paragraphs[pid as int];
    &&& pid < a.paragraphs.len()
    &&& all_filed(p.sentences, distinct_sentence(a))
    &&& once(text_words(a, p))
    &&& in_order(p.sentences, p.ordered_sentences)
}

/// [`is_distinct`] for all that is filed.
pub open spec fn distinct_paragraph(a: ArticleView) -> spec_fn(Seq<char>, usize) -> bool {
    |hash: Seq<char>, pid: usize| is_distinct(a, pid)
}

/// Whether all that is filed is named by the order.
pub open spec fn in_order(e: Entries, ordered: Seq<Seq<char>>) -> bool {
    &&& aligned(e, ordered)
    &&& forall|x: usize| all_ids(e).contains(x) ==> #[trigger] ordered_ids(e, ordered).contains(x)
}

proof fn lemma_all_ids_more(e: Entries, h: Seq<char>, id: usize, x: usize)
    requires
        all_ids(with_id(e, h, id)).contains(x),
    ensures
        all_ids(e).contains(x) || x == id,
{
    lemma_position(e, h);
    let v = bucket(e, h).push(id);
    assert forall|j: int| 0 <= j < v.len() implies all_ids(e).contains(#[trigger] v[j]) || v[j]
        == id by {
        if j < bucket(e, h).len() {
            lemma_all_ids_found(e, position(e, h), j);
        }
    }
    lemma_all_ids_set(e, h, v, all_ids(e), id, x);
}

proof fn lemma_all_ids_set(
    e: Entries,
    h: Seq<char>,
    v: Seq<usize>,
    all: Seq<usize>,
    id: usize,
    x: usize,
)
    requires
        all_ids(with_bucket(e, h, v)).contains(x),
        forall|j: int| 0 <= j < v.len() ==> all.contains(#[trigger] v[j]) || v[j] == id,
        forall|y: usize| all_ids(e).contains(y) ==> #[trigger] all.contains(y),
    ensures
        all.contains(x) || x == id,
    decreases e.len(),
{
    let f = with_bucket(e, h, v);
    lemma_position(e, h);
    let fs = all_ids(f);
    let i = choose|i: int| 0 <= i < fs.len() && fs[i] == x;
    if position(e, h) < 0 {
        assert(f.drop_last() =~= e);
        if i < all_ids(e).len() {
            assert(all_ids(e)[i] == x);
        } else {
            assert(v[i - all_ids(e).len()] == x);
        }
    } else {
        let d = e.drop_last();
        assert forall|y: usize| all_ids(d).contains(y) implies #[trigger] all.contains(y) by {
            let k = choose|k: int| 0 <= k < all_ids(d).len() && all_ids(d)[k] == y;
            assert(all_ids(e)[k] == y);
        }
        if e.last().0 == h {
            assert(f.drop_last() =~= d);
            if i < all_ids(d).len() {
                assert(all_ids(d)[i] == x);
            } else {
                assert(v[i - all_ids(d).len()] == x);
            }
        } else {
            assert(f.drop_last() =~= with_bucket(d, h, v));
            assert(f.last() == e.last());
            let n = all_ids(f.drop_last()).len();
            if i < n {
                assert(all_ids(f.drop_last())[i] == x);
                lemma_all_ids_set(d, h, v, all, id, x);
            } else {
                assert(e.last().1[i - n] == x);
                assert(all_ids(e)[all_ids(d).len() + (i - n)] == x);
            }
        }
    }
}

/// One more id at the end of the order.
pub(crate) proof fn lemma_in_order_more(e: Entries, ordered: Seq<Seq<char>>, h: Seq<char>, id: usize)
    requires
        in_order(e, ordered),
    ensures
        in_order(with_id(e, h, id), ordered.push(h)),
        ordered_ids(with_id(e, h, id), ordered.push(h)) == ordered_ids(e, ordered).push(id),
{
    lemma_aligned_more(e, ordered, h, id);
    let before = ordered_ids(e, ordered);
    let after = ordered_ids(with_id(e, h, id), ordered.push(h));
    assert forall|x: usize| all_ids(with_id(e, h, id)).contains(x) implies #[trigger]
        after.contains(x) by {
        lemma_all_ids_more(e, h, id, x);
        if x == id {
            assert(after[before.len() as int] == id);
        } else {
            assert(before.contains(x));
            let i = choose|i: int| 0 <= i < before.len() && before[i] == x;
            assert(after[i] == x);
        }
    }
}

/// What the paragraph level keeps: no token occurs twice, every token used counts as
/// matched, and so does every earlier paragraph used.
pub(crate) open spec fn paragraphs_once(a: ArticleView, s: ParagraphState) -> bool {
    let b = s.article;
    let n = a.paragraphs.len();
    let r = s.revision;
    let pids = ordered_ids(r.paragraphs, r.ordered_paragraphs);
    &&& b == (ArticleView { paragraphs: b.paragraphs, ..a })
    &&& n <= b.paragraphs.len() <= usize::MAX
    &&& forall|i: int| 0 <= i < n ==> #[trigger] b.paragraphs[i] == a.paragraphs[i]
    &&& forall|i: int|
        n <= i < b.paragraphs.len() ==> (#[trigger] b.paragraphs[i]).sentences.len() == 0
            && b.paragraphs[i].ordered_sentences.len() == 0
    &&& s.unmatched_curr == new_ids(n as int, b.paragraphs.len() as int)
    &&& in_order(r.paragraphs, r.ordered_paragraphs)
    &&& all_filed(r.paragraphs, used_paragraph(a, b))
    &&& ids_below(pids, b.paragraphs.len() as int)
    &&& once(pids)
    &&& forall|i: int| n <= i < b.paragraphs.len() ==> pids.contains(#[trigger] new_id(i))
    &&& forall|pid: usize|
        pid < n && pids.contains(pid) ==> #[trigger] s.matched.paragraphs.contains(pid)
    &&& once(tokens_of_paragraphs(b, pids))
    &&& forall|x: usize|
        count_of(tokens_of_paragraphs(b, pids), x) > 0 ==> #[trigger] s.matched.tokens.contains(x)
}

/// The id of what is at position `i` of an arena.
pub open spec fn new_id(i: int) -> usize {
    i as usize
}

/// A paragraph that a revision may be made of: a new one, or an earlier one in which
/// no token occurs twice.
pub(crate) open spec fn used_paragraph(a: ArticleView, b: ArticleView) -> spec_fn(Seq<char>, usize) -> bool {
    |hash: Seq<char>, pid: usize|
        if pid < a.paragraphs.len() {
            is_distinct(a, pid)
        } else {
            pid < b.paragraphs.len()
        }
}

/// What looking through a bucket finds: nothing of it was matched, and now all is.
pub(crate) proof fn lemma_scan_takes(
    a: ArticleView,
    ids: Seq<usize>,
    k: int,
    m: MatchedView,
    past: Seq<usize>,
)
    requires
        0 <= k,
    ensures
        ({
            let (n, _, found) = scan_paragraphs(a, ids, k, m, past);
            &&& m.paragraphs.subset_of(n.paragraphs)
            &&& match found {
                Some(pid) => {
                    &&& ids.contains(pid)
                    &&& !m.paragraphs.contains(pid)
                    &&& n.paragraphs.contains(pid)
                    &&& !any_matched(paragraph_words(a, pid), m.tokens)
                    &&& n.tokens == m.tokens.union(paragraph_words(a, pid).to_set())
                },
                None => n.tokens == m.tokens,
            }
        }),
    decreases ids.len() - k,
{
    if k < ids.len() {
        let pid = ids[k];
        let ws = paragraph_words(a, pid);
        if m.paragraphs.contains(pid) {
            lemma_scan_takes(a, ids, k + 1, m, past);
        } else if !any_matched(ws, m.tokens) {
            assert(ids[k] == pid);
        } else if all_matched(ws, m.tokens) {
            lemma_scan_takes(
                a,
                ids,
                k + 1,
                MatchedView { paragraphs: m.paragraphs.insert(pid), ..m },
                past.push(pid),
            );
        } else {
            lemma_scan_takes(a, ids, k + 1, m, past);
        }
    }
}

pub(crate) proof fn lemma_find_takes(
    a: ArticleView,
    b: ArticleView,
    prev: RevisionView,
    hash: Seq<char>,
    m: MatchedView,
    past: Seq<usize>,
)
    requires
        b.paragraphs_ht == a.paragraphs_ht,
        all_filed(a.paragraphs_ht, distinct_paragraph(a)),
        all_filed(prev.paragraphs, distinct_paragraph(a)),
    ensures
        ({
            let (n, _, found) = find_paragraph(b, prev, hash, m, past);
            &&& m.paragraphs.subset_of(n.paragraphs)
            &&& match found {
                Some(pid) => {
                    &&& is_distinct(a, pid)
                    &&& !m.paragraphs.contains(pid)
                    &&& n.paragraphs.contains(pid)
                    &&& !any_matched(paragraph_words(b, pid), m.tokens)
                    &&& n.tokens == m.tokens.union(paragraph_words(b, pid).to_set())
                },
                None => n.tokens == m.tokens,
            }
        }),
{
    let near = bucket(prev.paragraphs, hash);
    let far = bucket(b.paragraphs_ht, hash);
    let first = scan_paragraphs(b, near, 0, m, past);
    lemma_scan_takes(b, near, 0, m, past);
    lemma_scan_takes(b, far, 0, first.0, first.1);
    lemma_filed_bucket(prev.paragraphs, hash, distinct_paragraph(a));
    lemma_filed_bucket(a.paragraphs_ht, hash, distinct_paragraph(a));
    let r = find_paragraph(b, prev, hash, m, past).2;
    if r is Some {
        if first.2 is Some {
            let j = choose|j: int| 0 <= j < near.len() && near[j] == r->0;
            assert(distinct_paragraph(a)(hash, near[j]));
        } else {
            let j = choose|j: int| 0 <= j < far.len() && far[j] == r->0;
            assert(distinct_paragraph(a)(hash, far[j]));
        }
    }
}

/// The paragraphs `pids` read the same where they are the same.
pub(crate) proof fn lemma_same_paragraphs(b: ArticleView, c: ArticleView, pids: Seq<usize>)
    requires
        ids_below(pids, b.paragraphs.len() as int),
        c.sentences == b.sentences,
        b.paragraphs.len() <= c.paragraphs.len(),
        forall|i: int|
            0 <= i < b.paragraphs.len() ==> #[trigger] c.paragraphs[i] == b.paragraphs[i],
    ensures
        tokens_of_paragraphs(c, pids) == tokens_of_paragraphs(b, pids),
    decreases pids.len(),
{
    if pids.len() > 0 {
        let less = pids.drop_last();
        assert forall|i: int| 0 <= i < less.len() implies (#[trigger] less[i])
            < b.paragraphs.len() by {
            assert(less[i] == pids[i]);
        }
        lemma_same_paragraphs(b, c, less);
        assert(pids[pids.len() - 1] < b.paragraphs.len());
    }
}

pub(crate) proof fn lemma_paragraph_once(a: ArticleView, s: ParagraphState, prev: RevisionView, raw: Seq<char>)
    requires
        all_filed(a.paragraphs_ht, distinct_paragraph(a)),
        all_filed(prev.paragraphs, distinct_paragraph(a)),
        paragraphs_once(a, s),
        trimmed(raw).len() > 0,
        paragraph_step(s, prev, raw).article.paragraphs.len() <= usize::MAX,
    ensures
        paragraphs_once(a, paragraph_step(s, prev, raw)),
{
    let v = trimmed(raw);
    let hash = md5_hex(v);
    let r = s.revision;
    let b = s.article;
    let n = a.paragraphs.len();
    let u = paragraph_step(s, prev, raw);
    let c = u.article;
    let (m, past, found) = find_paragraph(b, prev, hash, s.matched, s.matched_prev);
    let pids = ordered_ids(r.paragraphs, r.ordered_paragraphs);
    lemma_find_takes(a, b, prev, hash, s.matched, s.matched_prev);
    let pid = match found {
        Some(pid) => pid,
        None => b.paragraphs.len() as usize,
    };
    lemma_in_order_more(r.paragraphs, r.ordered_paragraphs, hash, pid);
    let more = ordered_ids(u.revision.paragraphs, u.revision.ordered_paragraphs);
    assert(more == pids.push(pid));
    assert(more.drop_last() =~= pids);
    assert forall|h: Seq<char>, id: usize| #[trigger]
        used_paragraph(a, b)(h, id) implies used_paragraph(a, c)(h, id) by {}
    lemma_filed_weaker(r.paragraphs, used_paragraph(a, b), used_paragraph(a, c));
    assert(used_paragraph(a, c)(hash, pid));
    lemma_filed_more(r.paragraphs, hash, pid, used_paragraph(a, c));
    assert forall|i: int| 0 <= i < n implies #[trigger] c.paragraphs[i] == a.paragraphs[i] by {
        assert(b.paragraphs[i] == a.paragraphs[i]);
    }
    assert forall|i: int| 0 <= i < b.paragraphs.len() implies #[trigger] c.paragraphs[i]
        == b.paragraphs[i] by {}
    assert forall|i: int| n <= i < c.paragraphs.len() implies (
    #[trigger] c.paragraphs[i]).sentences.len() == 0 && c.paragraphs[i].ordered_sentences.len()
        == 0 by {
        if i < b.paragraphs.len() {
            assert(c.paragraphs[i] == b.paragraphs[i]);
        }
    }
    assert(u.unmatched_curr =~= new_ids(n as int, c.paragraphs.len() as int));
    assert(!pids.contains(pid));
    assert forall|x: usize| #[trigger] count_of(more, x) <= 1 by {
        lemma_count_one(pids, pid, x);
        lemma_count_found(pids, pid);
        assert(count_of(pids, x) <= 1);
    }
    assert forall|i: int| n <= i < c.paragraphs.len() implies more.contains(
        #[trigger] new_id(i),
    ) by {
        if i < b.paragraphs.len() {
            assert(pids.contains(new_id(i)));
            let j = choose|j: int| 0 <= j < pids.len() && pids[j] == new_id(i);
            assert(more[j] == new_id(i));
        } else {
            assert(more[pids.len() as int] == new_id(i));
        }
    }
    assert forall|id: usize| id < n && more.contains(id) implies #[trigger]
        u.matched.paragraphs.contains(id) by {
        let j = choose|j: int| 0 <= j < more.len() && more[j] == id;
        if j < pids.len() {
            assert(pids[j] == id);
            assert(s.matched.paragraphs.contains(id));
        }
    }
    lemma_same_paragraphs(b, c, pids);
    let used = tokens_of_paragraphs(b, pids);
    let here = text_words(c, c.paragraphs[pid as int]);
    assert(tokens_of_paragraphs(c, more) == used + here);
    let all = tokens_of_paragraphs(c, more);
    assert forall|x: usize| #[trigger]
        count_of(all, x) <= 1 && (count_of(all, x) > 0 ==> u.matched.tokens.contains(x)) by {
        lemma_count_add(used, here, x);
        assert(count_of(used, x) <= 1);
        if found is Some {
            assert(text_words(a, a.paragraphs[pid as int]) == here);
            assert(count_of(here, x) <= 1);
            if count_of(here, x) > 0 {
                lemma_text_among(b, pid, x);
                let ws = paragraph_words(b, pid);
                let i = choose|i: int| 0 <= i < ws.len() && ws[i] == x;
                assert(!s.matched.tokens.contains(ws[i]));
                assert(ws.to_set().contains(x));
            }
        } else {
            let p = c.paragraphs[pid as int];
            assert(p.ordered_sentences =~= Seq::empty());
            assert(ordered_ids(p.sentences, p.ordered_sentences) =~= Seq::<usize>::empty());
            assert(here =~= Seq::<usize>::empty());
        }
    }
    assert forall|x: usize| count_of(all, x) > 0 implies #[trigger] u.matched.tokens.contains(
        x,
    ) by {}
}

proof fn lemma_paragraphs_once(
    a: ArticleView,
    s: ParagraphState,
    prev: RevisionView,
    raws: Seq<Seq<char>>,
    k: int,
)
    requires
        all_filed(a.paragraphs_ht, distinct_paragraph(a)),
        all_filed(prev.paragraphs, distinct_paragraph(a)),
        paragraphs_once(a, s),
        0 <= k <= raws.len(),
        paragraph_steps(s, prev, raws, k).article.paragraphs.len() <= usize::MAX,
    ensures
        paragraphs_once(a, paragraph_steps(s, prev, raws, k)),
    decreases raws.len() - k,
{
    if k < raws.len() {
        let u = paragraph_step(s, prev, raws[k]);
        lemma_paragraph_steps_grow(u, prev, raws, k + 1);
        if trimmed(raws[k]).len() > 0 {
            lemma_paragraph_once(a, s, prev, raws[k]);
        }
        lemma_paragraphs_once(a, u, prev, raws, k + 1);
    }
}

/// A sentence that a paragraph may be made of: a new one, or an earlier one in which
/// no token occurs twice.
pub(crate) open spec fn used_sentence(a: ArticleView, b: ArticleView) -> spec_fn(Seq<char>, usize) -> bool {
    |hash: Seq<char>, sid: usize|
        if sid < a.sentences.len() {
            once(a.sentences[sid as int].words)
        } else {
            sid < b.sentences.len()
        }
}

/// What the sentence level keeps; `c` is the article before it and `pids` are the
/// paragraphs of the revision.
pub(crate) open spec fn sentences_once(
    a: ArticleView,
    c: ArticleView,
    pids: Seq<usize>,
    s: SentenceState,
) -> bool {
    let b = s.article;
    let m = a.sentences.len();
    let sids = text_sentences(b.paragraphs, pids);
    &&& b == (ArticleView { paragraphs: b.paragraphs, sentences: b.sentences, ..c })
    &&& m <= b.sentences.len() <= usize::MAX
    &&& forall|i: int| 0 <= i < m ==> #[trigger] b.sentences[i] == a.sentences[i]
    &&& forall|i: int| m <= i < b.sentences.len() ==> (#[trigger] b.sentences[i]).words.len() == 0
    &&& s.unmatched_curr == new_ids(m as int, b.sentences.len() as int)
    &&& b.paragraphs.len() == c.paragraphs.len()
    &&& forall|i: int|
        0 <= i < a.paragraphs.len() ==> #[trigger] b.paragraphs[i] == a.paragraphs[i]
    &&& forall|i: int|
        a.paragraphs.len() <= i < b.paragraphs.len() ==> in_order(
            (#[trigger] b.paragraphs[i]).sentences,
            b.paragraphs[i].ordered_sentences,
        ) && all_filed(b.paragraphs[i].sentences, used_sentence(a, b))
    &&& ids_below(sids, b.sentences.len() as int)
    &&& forall|i: int| m <= i < b.sentences.len() ==> count_of(sids, #[trigger] new_id(i)) == 1
    &&& once(words_of(b.sentences, sids))
    &&& forall|x: usize|
        count_of(words_of(b.sentences, sids), x) > 0 ==> #[trigger] s.matched.tokens.contains(x)
}

proof fn lemma_once_less(pids: Seq<usize>)
    requires
        pids.len() > 0,
        once(pids),
    ensures
        once(pids.drop_last()),
        !pids.drop_last().contains(pids.last()),
{
    let less = pids.drop_last();
    assert forall|x: usize| #[trigger] count_of(less, x) <= 1 by {
        assert(count_of(pids, x) <= 1);
    }
    assert(count_of(pids, pids.last()) <= 1);
    lemma_count_found(less, pids.last());
}

proof fn lemma_sentences_same(
    ps: Seq<ParagraphView>,
    qs: Seq<ParagraphView>,
    pids: Seq<usize>,
)
    requires
        forall|i: int| 0 <= i < pids.len() ==> qs[(#[trigger] pids[i]) as int] == ps[pids[i] as int],
    ensures
        text_sentences(qs, pids) == text_sentences(ps, pids),
    decreases pids.len(),
{
    if pids.len() > 0 {
        let less = pids.drop_last();
        assert forall|i: int| 0 <= i < less.len() implies qs[(#[trigger] less[i]) as int]
            == ps[less[i] as int] by {
            assert(less[i] == pids[i]);
        }
        lemma_sentences_same(ps, qs, less);
        assert(qs[pids[pids.len() - 1] as int] == ps[pids[pids.len() - 1] as int]);
    }
}

/// A sentence put at the end of one of the paragraphs comes once more.
pub(crate) proof fn lemma_sentence_comes(
    sentences: Seq<SentenceView>,
    ps: Seq<ParagraphView>,
    q: ParagraphView,
    pids: Seq<usize>,
    pid: usize,
    sid: usize,
    x: usize,
)
    requires
        once(pids),
        ids_below(pids, ps.len() as int),
        pid < ps.len(),
        ordered_ids(q.sentences, q.ordered_sentences) == ordered_ids(
            ps[pid as int].sentences,
            ps[pid as int].ordered_sentences,
        ).push(sid),
    ensures
        ({
            let before = text_sentences(ps, pids);
            let after = text_sentences(ps.update(pid as int, q), pids);
            &&& count_of(after, x) == count_of(before, x) + if x == sid && pids.contains(pid) {
                1nat
            } else {
                0
            }
            &&& count_of(words_of(sentences, after), x) == count_of(words_of(sentences, before), x)
                + if pids.contains(pid) {
                count_of(sentences[sid as int].words, x)
            } else {
                0
            }
        }),
    decreases pids.len(),
{
    let qs = ps.update(pid as int, q);
    if pids.len() > 0 {
        let less = pids.drop_last();
        let last = pids.last();
        lemma_once_less(pids);
        assert forall|i: int| 0 <= i < less.len() implies (#[trigger] less[i]) < ps.len() by {
            assert(less[i] == pids[i]);
        }
        assert(pids[pids.len() - 1] < ps.len());
        lemma_sentence_comes(sentences, ps, q, less, pid, sid, x);
        let p = ps[last as int];
        let old_ids = ordered_ids(p.sentences, p.ordered_sentences);
        let new_ones = ordered_ids(qs[last as int].sentences, qs[last as int].ordered_sentences);
        let a = text_sentences(ps, less);
        let b = text_sentences(qs, less);
        lemma_count_add(a, old_ids, x);
        lemma_count_add(b, new_ones, x);
        lemma_words_add(sentences, a, old_ids);
        lemma_words_add(sentences, b, new_ones);
        lemma_count_add(words_of(sentences, a), words_of(sentences, old_ids), x);
        lemma_count_add(words_of(sentences, b), words_of(sentences, new_ones), x);
        if last == pid {
            assert(pids[pids.len() - 1] == pid);
            lemma_count_one(old_ids, sid, x);
            assert(new_ones.drop_last() =~= old_ids);
            lemma_count_add(words_of(sentences, old_ids), sentences[sid as int].words, x);
        } else {
            assert(new_ones == old_ids);
            if pids.contains(pid) {
                let i = choose|i: int| 0 <= i < pids.len() && pids[i] == pid;
                assert(less[i] == pid);
            }
            if less.contains(pid) {
                let i = choose|i: int| 0 <= i < less.len() && less[i] == pid;
                assert(pids[i] == pid);
            }
        }
    }
}

pub(crate) proof fn lemma_words_same(s: Seq<SentenceView>, t: Seq<SentenceView>, sids: Seq<usize>)
    requires
        forall|i: int|
            0 <= i < sids.len() ==> t[(#[trigger] sids[i]) as int].words
                == s[sids[i] as int].words,
    ensures
        words_of(t, sids) == words_of(s, sids),
    decreases sids.len(),
{
    if sids.len() > 0 {
        let less = sids.drop_last();
        assert forall|i: int| 0 <= i < less.len() implies t[(#[trigger] less[i]) as int].words
            == s[less[i] as int].words by {
            assert(less[i] == sids[i]);
        }
        lemma_words_same(s, t, less);
        assert(t[sids[sids.len() - 1] as int].words == s[sids[sids.len() - 1] as int].words);
    }
}

/// What looking through a bucket finds: nothing of it was matched, and now all is.
pub(crate) proof fn lemma_scan_takes_sentence(
    b: ArticleView,
    ids: Seq<usize>,
    k: int,
    m: MatchedView,
    past: Seq<usize>,
)
    requires
        0 <= k,
    ensures
        ({
            let (n, _, found) = scan_sentences(b, ids, k, m, past);
            match found {
                Some(sid) => {
                    &&& ids.contains(sid)
                    &&& !any_matched(b.sentences[sid as int].words, m.tokens)
                    &&& n.tokens == m.tokens.union(b.sentences[sid as int].words.to_set())
                },
                None => n.tokens == m.tokens,
            }
        }),
    decreases ids.len() - k,
{
    if k < ids.len() {
        let sid = ids[k];
        let ws = b.sentences[sid as int].words;
        if m.sentences.contains(sid) {
            lemma_scan_takes_sentence(b, ids, k + 1, m, past);
        } else if !any_matched(ws, m.tokens) {
            assert(ids[k] == sid);
        } else if all_matched(ws, m.tokens) {
            lemma_scan_takes_sentence(
                b,
                ids,
                k + 1,
                MatchedView { sentences: m.sentences.insert(sid), ..m },
                past.push(sid),
            );
        } else {
            lemma_scan_takes_sentence(b, ids, k + 1, m, past);
        }
    }
}

/// What a search for a sentence may find.
pub(crate) open spec fn is_taken(
    a: ArticleView,
    b: ArticleView,
    m: MatchedView,
    r: (MatchedView, Seq<usize>, Option<usize>),
) -> bool {
    match r.2 {
        Some(sid) => {
            &&& sid < a.sentences.len()
            &&& once(a.sentences[sid as int].words)
            &&& !any_matched(b.sentences[sid as int].words, m.tokens)
            &&& r.0.tokens == m.tokens.union(b.sentences[sid as int].words.to_set())
        },
        None => r.0.tokens == m.tokens,
    }
}

pub(crate) proof fn lemma_bucket_takes(
    a: ArticleView,
    b: ArticleView,
    e: Entries,
    hash: Seq<char>,
    m: MatchedView,
    past: Seq<usize>,
)
    requires
        all_filed(e, distinct_sentence(a)),
    ensures
        is_taken(a, b, m, scan_sentences(b, bucket(e, hash), 0, m, past)),
{
    let ids = bucket(e, hash);
    lemma_scan_takes_sentence(b, ids, 0, m, past);
    lemma_filed_bucket(e, hash, distinct_sentence(a));
    let r = scan_sentences(b, ids, 0, m, past).2;
    if r is Some {
        let j = choose|j: int| 0 <= j < ids.len() && ids[j] == r->0;
        assert(distinct_sentence(a)(hash, ids[j]));
    }
}

/// Whether the paragraphs `pids` are of `a` and no token occurs twice in a sentence
/// of theirs.
pub(crate) open spec fn are_distinct(a: ArticleView, pids: Seq<usize>) -> bool {
    forall|i: int|
        0 <= i < pids.len() ==> (#[trigger] pids[i]) < a.paragraphs.len() && all_filed(
            a.paragraphs[pids[i] as int].sentences,
            distinct_sentence(a),
        )
}

pub(crate) proof fn lemma_paragraphs_take(
    a: ArticleView,
    b: ArticleView,
    pids: Seq<usize>,
    k: int,
    hash: Seq<char>,
    m: MatchedView,
    past: Seq<usize>,
)
    requires
        0 <= k,
        are_distinct(a, pids),
        forall|i: int|
            0 <= i < a.paragraphs.len() ==> #[trigger] b.paragraphs[i] == a.paragraphs[i],
    ensures
        is_taken(a, b, m, scan_in_paragraphs(b, pids, k, hash, m, past)),
    decreases pids.len() - k,
{
    if k < pids.len() {
        let p = a.paragraphs[pids[k] as int];
        assert(b.paragraphs[pids[k] as int] == p);
        lemma_bucket_takes(a, b, p.sentences, hash, m, past);
        let here = scan_sentences(b, bucket(p.sentences, hash), 0, m, past);
        if here.2 is None {
            lemma_paragraphs_take(a, b, pids, k + 1, hash, here.0, here.1);
        }
    }
}

pub(crate) proof fn lemma_sentence_once(
    a: ArticleView,
    c: ArticleView,
    pids: Seq<usize>,
    s: SentenceState,
    pid: usize,
    prevs: Seq<usize>,
    raw: Seq<char>,
)
    requires
        all_filed(a.sentences_ht, distinct_sentence(a)),
        c.sentences_ht == a.sentences_ht,
        are_distinct(a, prevs),
        once(pids),
        ids_below(pids, c.paragraphs.len() as int),
        pids.contains(pid),
        sentences_once(a, c, pids, s),
        a.paragraphs.len() <= pid < c.paragraphs.len(),
        trimmed(raw).len() > 0,
        sentence_step(s, pid, prevs, raw).article.sentences.len() <= usize::MAX,
    ensures
        sentences_once(a, c, pids, sentence_step(s, pid, prevs, raw)),
{
    let b = s.article;
    let m = a.sentences.len() as int;
    let v = normalized(trimmed(raw));
    let hash = md5_hex(v);
    let u = sentence_step(s, pid, prevs, raw);
    let d = u.article;
    let first = scan_in_paragraphs(b, prevs, 0, hash, s.matched, s.matched_prev);
    lemma_paragraphs_take(a, b, prevs, 0, hash, s.matched, s.matched_prev);
    lemma_bucket_takes(a, b, a.sentences_ht, hash, first.0, first.1);
    let (n, past, found) = find_sentence(b, prevs, hash, s.matched, s.matched_prev);
    assert(is_taken(a, b, s.matched, (n, past, found)));
    let sid = match found {
        Some(sid) => sid,
        None => b.sentences.len() as usize,
    };
    let p = b.paragraphs[pid as int];
    let q = d.paragraphs[pid as int];
    assert(q == ParagraphView {
        sentences: with_id(p.sentences, hash, sid),
        ordered_sentences: p.ordered_sentences.push(hash),
        ..p
    });
    assert(in_order(p.sentences, p.ordered_sentences));
    lemma_in_order_more(p.sentences, p.ordered_sentences, hash, sid);
    assert forall|h: Seq<char>, id: usize| #[trigger]
        used_sentence(a, b)(h, id) implies used_sentence(a, d)(h, id) by {}
    assert forall|i: int| a.paragraphs.len() <= i < d.paragraphs.len() implies in_order(
        (#[trigger] d.paragraphs[i]).sentences,
        d.paragraphs[i].ordered_sentences,
    ) && all_filed(d.paragraphs[i].sentences, used_sentence(a, d)) by {
        let e = b.paragraphs[i].sentences;
        assert(all_filed(e, used_sentence(a, b)));
        lemma_filed_weaker(e, used_sentence(a, b), used_sentence(a, d));
        if i == pid {
            assert(used_sentence(a, d)(hash, sid));
            lemma_filed_more(e, hash, sid, used_sentence(a, d));
        }
    }
    assert forall|i: int| 0 <= i < b.sentences.len() implies #[trigger] d.sentences[i]
        == b.sentences[i] by {}
    assert forall|i: int| 0 <= i < m implies #[trigger] d.sentences[i] == a.sentences[i] by {
        assert(d.sentences[i] == b.sentences[i]);
    }
    assert forall|i: int| m <= i < d.sentences.len() implies (#[trigger] d.sentences[i]).words.len()
        == 0 by {
        if i < b.sentences.len() {
            assert(d.sentences[i] == b.sentences[i]);
        }
    }
    assert forall|i: int| 0 <= i < a.paragraphs.len() implies #[trigger] d.paragraphs[i]
        == a.paragraphs[i] by {
        assert(b.paragraphs[i] == a.paragraphs[i]);
    }
    assert(u.unmatched_curr =~= new_ids(m, d.sentences.len() as int));
    let before = text_sentences(b.paragraphs, pids);
    let after = text_sentences(d.paragraphs, pids);
    assert(d.paragraphs == b.paragraphs.update(pid as int, q));
    assert(words_of(d.sentences, before) == words_of(b.sentences, before)) by {
        assert forall|i: int| 0 <= i < before.len() implies d.sentences[(
        #[trigger] before[i]) as int].words == b.sentences[before[i] as int].words by {
            assert(before[i] < b.sentences.len());
        }
        lemma_words_same(b.sentences, d.sentences, before);
    }
    let ws = d.sentences[sid as int].words;
    assert forall|x: usize| #[trigger]
        count_of(after, x) == count_of(before, x) + if x == sid {
            1nat
        } else {
            0
        } by {
        lemma_sentence_comes(d.sentences, b.paragraphs, q, pids, pid, sid, x);
    }
    assert forall|j: int| 0 <= j < after.len() implies (#[trigger] after[j]) < d.sentences.len() by {
        lemma_count_found(after, after[j]);
        lemma_count_found(before, after[j]);
        if after[j] != sid {
            let k = choose|k: int| 0 <= k < before.len() && before[k] == after[j];
            assert(before[k] < b.sentences.len());
        }
    }
    assert forall|i: int| m <= i < d.sentences.len() implies count_of(after, #[trigger] new_id(i))
        == 1 by {
        if i < b.sentences.len() {
            assert(count_of(before, new_id(i)) == 1);
        } else {
            lemma_count_found(before, sid);
            if before.contains(sid) {
                let k = choose|k: int| 0 <= k < before.len() && before[k] == sid;
                assert(before[k] < b.sentences.len());
            }
        }
    }
    let all = words_of(d.sentences, after);
    assert forall|x: usize| #[trigger]
        count_of(all, x) <= 1 && (count_of(all, x) > 0 ==> u.matched.tokens.contains(x)) by {
        lemma_sentence_comes(d.sentences, b.paragraphs, q, pids, pid, sid, x);
        assert(count_of(words_of(b.sentences, before), x) <= 1);
        if found is Some {
            assert(b.sentences[sid as int] == a.sentences[sid as int]);
            assert(count_of(ws, x) <= 1);
            if count_of(ws, x) > 0 {
                lemma_count_found(ws, x);
                let i = choose|i: int| 0 <= i < ws.len() && ws[i] == x;
                assert(!s.matched.tokens.contains(ws[i]));
                assert(ws.to_set().contains(x));
            }
        } else {
            assert(count_of(ws, x) == 0);
        }
    }
    assert forall|x: usize| count_of(all, x) > 0 implies #[trigger] u.matched.tokens.contains(
        x,
    ) by {}
}

pub(crate) proof fn lemma_sentence_steps_once(
    a: ArticleView,
    c: ArticleView,
    pids: Seq<usize>,
    s: SentenceState,
    pid: usize,
    prevs: Seq<usize>,
    raws: Seq<Seq<char>>,
    k: int,
)
    requires
        all_filed(a.sentences_ht, distinct_sentence(a)),
        c.sentences_ht == a.sentences_ht,
        are_distinct(a, prevs),
        once(pids),
        ids_below(pids, c.paragraphs.len() as int),
        pids.contains(pid),
        sentences_once(a, c, pids, s),
        a.paragraphs.len() <= pid < c.paragraphs.len(),
        0 <= k <= raws.len(),
        sentence_steps(s, pid, prevs, raws, k).article.sentences.len() <= usize::MAX,
    ensures
        sentences_once(a, c, pids, sentence_steps(s, pid, prevs, raws, k)),
    decreases raws.len() - k,
{
    if k < raws.len() {
        let r = sentence_step(s, pid, prevs, raws[k]);
        assert(r.article.paragraphs.len() == s.article.paragraphs.len());
        lemma_sentence_steps_grow(r, pid, prevs, raws, k + 1);
        if trimmed(raws[k]).len() > 0 {
            lemma_sentence_once(a, c, pids, s, pid, prevs, raws[k]);
        }
        lemma_sentence_steps_once(a, c, pids, r, pid, prevs, raws, k + 1);
    }
}

pub(crate) proof fn lemma_sentence_level_once(
    a: ArticleView,
    c: ArticleView,
    pids: Seq<usize>,
    s: SentenceState,
    prevs: Seq<usize>,
    k: int,
)
    requires
        all_filed(a.sentences_ht, distinct_sentence(a)),
        c.sentences_ht == a.sentences_ht,
        are_distinct(a, prevs),
        once(pids),
        ids_below(pids, c.paragraphs.len() as int),
        a.paragraphs.len() <= c.paragraphs.len() <= usize::MAX,
        forall|i: int|
            a.paragraphs.len() <= i < c.paragraphs.len() ==> pids.contains(#[trigger] new_id(i)),
        sentences_once(a, c, pids, s),
        0 <= k <= c.paragraphs.len() - a.paragraphs.len(),
        sentence_paragraphs(
            s,
            new_ids(a.paragraphs.len() as int, c.paragraphs.len() as int),
            prevs,
            k,
        ).article.sentences.len() <= usize::MAX,
    ensures
        sentences_once(
            a,
            c,
            pids,
            sentence_paragraphs(
                s,
                new_ids(a.paragraphs.len() as int, c.paragraphs.len() as int),
                prevs,
                k,
            ),
        ),
    decreases c.paragraphs.len() - k,
{
    let n = a.paragraphs.len() as int;
    let news = new_ids(n, c.paragraphs.len() as int);
    if k < news.len() {
        let pid = news[k];
        assert(pid == new_id(n + k));
        let raws = sentences_of(s.article.paragraphs[pid as int].value);
        let r = sentence_steps(s, pid, prevs, raws, 0);
        lemma_sentence_steps_grow(s, pid, prevs, raws, 0);
        assert(ids_below(news, r.article.paragraphs.len() as int));
        lemma_sentence_paragraphs_grow(r, news, prevs, k + 1);
        lemma_sentence_steps_once(a, c, pids, s, pid, prevs, raws, 0);
        lemma_sentence_level_once(a, c, pids, r, prevs, k + 1);
    }
}

/// A token put at the end of a sentence that comes once.
pub(crate) proof fn lemma_word_comes(
    sentences: Seq<SentenceView>,
    t: SentenceView,
    sids: Seq<usize>,
    sid: usize,
    id: usize,
    x: usize,
)
    requires
        ids_below(sids, sentences.len() as int),
        sid < sentences.len(),
        t.words == sentences[sid as int].words.push(id),
    ensures
        count_of(words_of(sentences.update(sid as int, t), sids), x) == count_of(
            words_of(sentences, sids),
            x,
        ) + if x == id {
            count_of(sids, sid)
        } else {
            0
        },
    decreases sids.len(),
{
    let after = sentences.update(sid as int, t);
    if sids.len() > 0 {
        let less = sids.drop_last();
        let last = sids.last();
        assert forall|i: int| 0 <= i < less.len() implies (#[trigger] less[i]) < sentences.len() by {
            assert(less[i] == sids[i]);
        }
        assert(sids[sids.len() - 1] < sentences.len());
        lemma_word_comes(sentences, t, less, sid, id, x);
        lemma_count_add(words_of(sentences, less), sentences[last as int].words, x);
        lemma_count_add(words_of(after, less), after[last as int].words, x);
        lemma_count_one(sentences[sid as int].words, id, x);
    }
}

/// What the word level keeps; `c` is the article before it, `sids` are the sentences
/// of the revision, and those from `m` on are new.
pub(crate) open spec fn words_once(
    c: ArticleView,
    sids: Seq<usize>,
    m: int,
    b: ArticleView,
    tokens: Set<usize>,
) -> bool {
    &&& b == (ArticleView {
        tokens: b.tokens,
        sentences: b.sentences,
        next_token_id: b.next_token_id,
        ..c
    })
    &&& b.next_token_id == b.tokens.len()
    &&& c.tokens.len() <= b.tokens.len()
    &&& b.sentences.len() == c.sentences.len()
    &&& forall|i: int| 0 <= i < m ==> (#[trigger] b.sentences[i]).words == c.sentences[i].words
    &&& forall|i: int|
        0 <= i < c.sentences.len() ==> (#[trigger] b.sentences[i]).hash_value
            == c.sentences[i].hash_value
    &&& once(words_of(b.sentences, sids))
    &&& forall|x: usize| #[trigger]
        count_of(words_of(b.sentences, sids), x) > 0 ==> x < b.tokens.len() && (x < c.tokens.len()
            ==> tokens.contains(x))
}

/// What does not change at the word level: every new sentence comes once.
pub(crate) open spec fn slots_once(c: ArticleView, sids: Seq<usize>, m: int) -> bool {
    &&& 0 <= m <= c.sentences.len() <= usize::MAX
    &&& ids_below(sids, c.sentences.len() as int)
    &&& forall|i: int| m <= i < c.sentences.len() ==> count_of(sids, #[trigger] new_id(i)) == 1
}

pub(crate) proof fn lemma_attach_once(
    c: ArticleView,
    sids: Seq<usize>,
    m: int,
    b: ArticleView,
    tokens: Set<usize>,
    sid: usize,
    id: usize,
)
    requires
        slots_once(c, sids, m),
        words_once(c, sids, m, b, tokens),
        m <= sid < c.sentences.len(),
        id < b.tokens.len(),
        count_of(words_of(b.sentences, sids), id) == 0,
    ensures
        words_once(c, sids, m, word_attached(b, sid, id), tokens.insert(id)),
{
    let d = word_attached(b, sid, id);
    let t = d.sentences[sid as int];
    assert(d.sentences == b.sentences.update(sid as int, t));
    assert(count_of(sids, new_id(sid as int)) == 1);
    assert forall|x: usize| #[trigger]
        count_of(words_of(d.sentences, sids), x) <= 1 && (count_of(words_of(d.sentences, sids), x)
            > 0 ==> x < d.tokens.len() && (x < c.tokens.len() ==> tokens.insert(id).contains(
            x,
        ))) by {
        lemma_word_comes(b.sentences, t, sids, sid, id, x);
        assert(count_of(words_of(b.sentences, sids), x) <= 1);
    }
    assert forall|i: int| 0 <= i < m implies (#[trigger] d.sentences[i]).words
        == c.sentences[i].words by {
        assert(b.sentences[i].words == c.sentences[i].words);
    }
    assert forall|i: int| 0 <= i < c.sentences.len() implies (#[trigger] d.sentences[i]).hash_value
        == c.sentences[i].hash_value by {
        assert(b.sentences[i].hash_value == c.sentences[i].hash_value);
    }
}

/// A new token occurs nowhere yet.
pub(crate) proof fn lemma_add_once(
    c: ArticleView,
    sids: Seq<usize>,
    m: int,
    b: ArticleView,
    tokens: Set<usize>,
    sid: usize,
    word: Seq<char>,
    rev: u64,
)
    requires
        slots_once(c, sids, m),
        words_once(c, sids, m, b, tokens),
        m <= sid < c.sentences.len(),
        b.tokens.len() < usize::MAX,
    ensures
        words_once(c, sids, m, word_added(b, sid, word, rev), tokens),
{
    let id = b.next_token_id;
    let d = b.with_word(word, rev);
    assert(count_of(words_of(b.sentences, sids), id) == 0);
    assert(words_once(c, sids, m, d, tokens));
    lemma_attach_once(c, sids, m, d, tokens, sid, id);
    let e = word_attached(d, sid, id);
    assert forall|x: usize| #[trigger]
        count_of(words_of(e.sentences, sids), x) > 0 implies x < e.tokens.len() && (x
        < c.tokens.len() ==> tokens.contains(x)) by {
        assert(x < c.tokens.len() ==> tokens.insert(id).contains(x));
    }
}

pub(crate) proof fn lemma_scan_once(
    c: ArticleView,
    sids: Seq<usize>,
    m: int,
    s: WordState,
    x: WordContext,
    sid: usize,
    word: Seq<char>,
    pos: int,
)
    requires
        slots_once(c, sids, m),
        words_once(c, sids, m, s.article, s.tokens),
        ids_below(x.prev_ids, c.tokens.len() as int),
        m <= sid < c.sentences.len(),
        s.article.tokens.len() < usize::MAX,
        0 <= pos,
    ensures
        ({
            let (u, found) = scan_steps(s, x, sid, word, pos);
            &&& words_once(c, sids, m, u.article, u.tokens)
            &&& !found ==> u.article.tokens.len() == s.article.tokens.len()
        }),
    decreases x.ops.len() - pos,
{
    if pos < x.ops.len() {
        let b = s.article;
        lemma_find_prev(x.prev_ids, x.prev_texts, s.tokens, word, 0);
        if s.used[pos] || step_text(x.ops[pos]) != word {
            lemma_scan_once(c, sids, m, s, x, sid, word, pos + 1);
        } else {
            let found = find_prev(x.prev_ids, x.prev_texts, s.tokens, word, 0);
            match x.ops[pos] {
                Step::Keep(v) => {
                    match found {
                        Some(i) => {
                            let id = x.prev_ids[i];
                            assert(id < c.tokens.len());
                            assert(count_of(words_of(b.sentences, sids), id) == 0);
                            lemma_attach_once(c, sids, m, b, s.tokens, sid, id);
                        },
                        None => {
                            lemma_scan_once(c, sids, m, s, x, sid, word, pos + 1);
                        },
                    }
                },
                Step::Delete(v) => {
                    match found {
                        Some(i) => {
                            let id = x.prev_ids[i];
                            let d = b.set_word(
                                id as int,
                                WordView {
                                    outbound: b.tokens[id as int].outbound.push(x.rev),
                                    ..b.tokens[id as int]
                                },
                            );
                            let r = WordState {
                                article: d,
                                tokens: s.tokens.insert(id),
                                words: s.words.push(id),
                                used: s.used.update(pos, true),
                                ..s
                            };
                            assert(id < c.tokens.len());
                            assert(d.tokens.len() == b.tokens.len());
                            assert(words_once(c, sids, m, d, r.tokens));
                            lemma_scan_once(c, sids, m, r, x, sid, word, pos + 1);
                        },
                        None => {
                            lemma_scan_once(c, sids, m, s, x, sid, word, pos + 1);
                        },
                    }
                },
                Step::Insert(v) => {
                    lemma_add_once(c, sids, m, b, s.tokens, sid, word, x.rev);
                },
            }
        }
    }
}

proof fn lemma_words_once(
    c: ArticleView,
    sids: Seq<usize>,
    m: int,
    s: WordState,
    x: WordContext,
    ws: Seq<(usize, Seq<char>)>,
    k: int,
)
    requires
        slots_once(c, sids, m),
        words_once(c, sids, m, s.article, s.tokens),
        ids_below(x.prev_ids, c.tokens.len() as int),
        words_go_to_new(ws, c, m),
        0 <= k <= ws.len(),
        word_steps(s, x, ws, k).article.tokens.len() < usize::MAX,
    ensures
        ({
            let u = word_steps(s, x, ws, k);
            words_once(c, sids, m, u.article, u.tokens)
        }),
    decreases ws.len() - k,
{
    if k < ws.len() {
        let (sid, word) = ws[k];
        let r = word_step(s, x, sid, word);
        let u = scan_steps(s, x, sid, word, 0).0;
        assert(ws[k].0 < c.sentences.len());
        assert(ids_below(x.prev_ids, s.article.tokens.len() as int));
        assert forall|i: int| 0 <= i < ws.len() implies (#[trigger] ws[i]).0
            < s.article.sentences.len() by {}
        lemma_scan_steps_grow(s, x, sid, word, 0);
        lemma_word_add_grows(u.article, sid, word, x.rev);
        assert(ids_below(x.prev_ids, r.article.tokens.len() as int));
        lemma_word_steps_grow(r, x, ws, k + 1);
        lemma_scan_once(c, sids, m, s, x, sid, word, 0);
        if !scan_steps(s, x, sid, word, 0).1 {
            lemma_add_once(c, sids, m, u.article, u.tokens, sid, word, x.rev);
        }
        lemma_words_once(c, sids, m, r, x, ws, k + 1);
    }
}

proof fn lemma_new_words_once(
    c: ArticleView,
    sids: Seq<usize>,
    m: int,
    b: ArticleView,
    tokens: Set<usize>,
    ws: Seq<(usize, Seq<char>)>,
    k: int,
    rev: u64,
)
    requires
        slots_once(c, sids, m),
        words_once(c, sids, m, b, tokens),
        words_go_to_new(ws, c, m),
        0 <= k <= ws.len(),
        words_added(b, ws, k, rev).tokens.len() < usize::MAX,
    ensures
        words_once(c, sids, m, words_added(b, ws, k, rev), tokens),
    decreases ws.len() - k,
{
    if k < ws.len() {
        let (sid, word) = ws[k];
        let d = word_added(b, sid, word, rev);
        assert(ws[k].0 < c.sentences.len());
        lemma_word_add_grows(b, sid, word, rev);
        assert forall|i: int| 0 <= i < ws.len() implies (#[trigger] ws[i]).0 < d.sentences.len() by {}
        lemma_words_added_grow(d, ws, k + 1, rev);
        lemma_add_once(c, sids, m, b, tokens, sid, word, rev);
        lemma_new_words_once(c, sids, m, d, tokens, ws, k + 1, rev);
    }
}

/// The word level keeps every token to one place.
pub(crate) proof fn lemma_word_level_once(
    c: ArticleView,
    sids: Seq<usize>,
    m: int,
    prev: Seq<usize>,
    suspect: bool,
    rev: u64,
    adds: nat,
    tokens: Set<usize>,
)
    requires
        slots_once(c, sids, m),
        words_once(c, sids, m, c, tokens),
        is_linked(c),
        ids_below(prev, c.sentences.len() as int),
        word_level(
            c,
            new_ids(m, c.sentences.len() as int),
            prev,
            suspect,
            rev,
            adds,
            tokens,
        ).article.tokens.len() < usize::MAX,
    ensures
        ({
            let w = word_level(
                c,
                new_ids(m, c.sentences.len() as int),
                prev,
                suspect,
                rev,
                adds,
                tokens,
            );
            words_once(c, sids, m, w.article, w.tokens)
        }),
{
    let n = c.sentences.len() as int;
    let curr = new_ids(m, n);
    let ws = sentence_words(c, curr);
    let ids = not_in(words_of(c.sentences, prev), tokens);
    lemma_words_are_new(c, m, n - m);
    lemma_words_below(c.sentences, prev, c.tokens.len() as int);
    lemma_not_in_below(words_of(c.sentences, prev), tokens, c.tokens.len() as int);
    let x = WordContext {
        prev_ids: ids,
        prev_texts: word_values(c, ids),
        ops: transcript(word_values(c, ids), words_only(ws)),
        rev,
    };
    let s = WordState {
        article: c,
        tokens,
        words: Seq::empty(),
        used: Seq::new(x.ops.len(), |i: int| false),
        adds,
    };
    if ws.len() == 0 || (suspect && is_dense(words_only(ws))) {
    } else if ids.len() == 0 {
        lemma_new_words_once(c, sids, m, c, tokens, ws, 0, rev);
    } else {
        lemma_words_once(c, sids, m, s, x, ws, 0);
    }
}

/// Whether all sentences and paragraphs of `a` are made of the same in `b`.
pub open spec fn is_kept(a: ArticleView, b: ArticleView) -> bool {
    &&& a.sentences.len() <= b.sentences.len()
    &&& forall|i: int|
        0 <= i < a.sentences.len() ==> (#[trigger] b.sentences[i]).words == a.sentences[i].words
    &&& a.paragraphs.len() <= b.paragraphs.len()
    &&& forall|i: int|
        0 <= i < a.paragraphs.len() ==> (#[trigger] b.paragraphs[i]).sentences
            == a.paragraphs[i].sentences && b.paragraphs[i].ordered_sentences
            == a.paragraphs[i].ordered_sentences
}

pub(crate) proof fn lemma_kept_trans(a: ArticleView, b: ArticleView, c: ArticleView)
    requires
        is_kept(a, b),
        is_kept(b, c),
    ensures
        is_kept(a, c),
{
    assert forall|i: int| 0 <= i < a.sentences.len() implies (#[trigger] c.sentences[i]).words
        == a.sentences[i].words by {
        assert(b.sentences[i].words == a.sentences[i].words);
    }
    assert forall|i: int| 0 <= i < a.paragraphs.len() implies (#[trigger] c.paragraphs[i]).sentences
        == a.paragraphs[i].sentences && c.paragraphs[i].ordered_sentences
        == a.paragraphs[i].ordered_sentences by {
        assert(b.paragraphs[i].sentences == a.paragraphs[i].sentences);
    }
}

pub(crate) proof fn lemma_kept_text(a: ArticleView, b: ArticleView, pid: usize)
    requires
        is_linked(a),
        is_kept(a, b),
        pid < a.paragraphs.len(),
    ensures
        text_words(b, b.paragraphs[pid as int]) == text_words(a, a.paragraphs[pid as int]),
{
    let p = a.paragraphs[pid as int];
    let sids = ordered_ids(p.sentences, p.ordered_sentences);
    assert(b.paragraphs[pid as int].sentences == p.sentences);
    lemma_ordered_below(p.sentences, p.ordered_sentences, 0, a.sentences.len() as int);
    assert forall|i: int| 0 <= i < sids.len() implies b.sentences[(#[trigger] sids[i]) as int].words
        == a.sentences[sids[i] as int].words by {
        assert(sids[i] < a.sentences.len());
    }
    lemma_words_same(a.sentences, b.sentences, sids);
}

proof fn lemma_kept_distinct(a: ArticleView, b: ArticleView, pid: usize)
    requires
        is_linked(a),
        is_kept(a, b),
        is_distinct(a, pid),
    ensures
        is_distinct(b, pid),
{
    let p = a.paragraphs[pid as int];
    assert(b.paragraphs[pid as int].sentences == p.sentences);
    lemma_kept_text(a, b, pid);
    assert forall|h: Seq<char>, sid: usize| #[trigger]
        distinct_sentence(a)(h, sid) implies distinct_sentence(b)(h, sid) by {}
    lemma_filed_weaker(p.sentences, distinct_sentence(a), distinct_sentence(b));
}

pub(crate) proof fn lemma_kept_paragraphs(a: ArticleView, b: ArticleView, pids: Seq<usize>)
    requires
        is_linked(a),
        is_kept(a, b),
        ids_below(pids, a.paragraphs.len() as int),
    ensures
        tokens_of_paragraphs(b, pids) == tokens_of_paragraphs(a, pids),
    decreases pids.len(),
{
    if pids.len() > 0 {
        let less = pids.drop_last();
        assert forall|i: int| 0 <= i < less.len() implies (#[trigger] less[i])
            < a.paragraphs.len() by {
            assert(less[i] == pids[i]);
        }
        lemma_kept_paragraphs(a, b, less);
        assert(pids[pids.len() - 1] < a.paragraphs.len());
        lemma_kept_text(a, b, pids[pids.len() - 1]);
    }
}

/// Whether no token occurs twice in the revision, nor any paragraph, and the order
/// names all its paragraphs.
pub open spec fn is_distinct_revision(a: ArticleView, r: RevisionView) -> bool {
    &&& all_filed(r.paragraphs, distinct_paragraph(a))
    &&& in_order(r.paragraphs, r.ordered_paragraphs)
    &&& once(ordered_ids(r.paragraphs, r.ordered_paragraphs))
    &&& once(revision_tokens(a, r))
}

pub(crate) proof fn lemma_revision_below(a: ArticleView, r: RevisionView)
    requires
        all_filed(r.paragraphs, distinct_paragraph(a)),
    ensures
        ids_below(ordered_ids(r.paragraphs, r.ordered_paragraphs), a.paragraphs.len() as int),
{
    let such = |pid: usize| pid < a.paragraphs.len();
    lemma_filed_weaker(
        r.paragraphs,
        distinct_paragraph(a),
        |h: Seq<char>, pid: usize| such(pid),
    );
    lemma_ordered_such(r.paragraphs, r.ordered_paragraphs, 0, such);
    let pids = ordered_ids(r.paragraphs, r.ordered_paragraphs);
    assert forall|i: int| 0 <= i < pids.len() implies (#[trigger] pids[i]) < a.paragraphs.len() by {
        assert(such(pids[i]));
    }
}

pub(crate) proof fn lemma_kept_revision(a: ArticleView, b: ArticleView, r: RevisionView)
    requires
        is_linked(a),
        is_kept(a, b),
        is_distinct_revision(a, r),
    ensures
        is_distinct_revision(b, r),
        revision_tokens(b, r) == revision_tokens(a, r),
{
    assert forall|h: Seq<char>, pid: usize| #[trigger]
        distinct_paragraph(a)(h, pid) implies distinct_paragraph(b)(h, pid) by {
        lemma_kept_distinct(a, b, pid);
    }
    lemma_filed_weaker(r.paragraphs, distinct_paragraph(a), distinct_paragraph(b));
    lemma_revision_below(a, r);
    lemma_kept_paragraphs(a, b, ordered_ids(r.paragraphs, r.ordered_paragraphs));
}

/// What an article keeps from one revision to the next: no token occurs twice in any
/// revision, nor in anything that is filed.
pub open spec fn is_unique(a: ArticleView) -> bool {
    &&& is_linked(a)
    &&& a.next_token_id == a.tokens.len()
    &&& all_filed(a.paragraphs_ht, distinct_paragraph(a))
    &&& all_filed(a.sentences_ht, distinct_sentence(a))
    &&& forall|id: u64| #[trigger]
        a.revisions.contains_key(id) ==> is_distinct_revision(a, a.revisions[id])
}

/// What was filed and stored stays so.
proof fn lemma_kept_unique(a: ArticleView, b: ArticleView)
    requires
        is_unique(a),
        is_kept(a, b),
        is_linked(b),
        b.next_token_id == b.tokens.len(),
        b.paragraphs_ht == a.paragraphs_ht,
        b.sentences_ht == a.sentences_ht,
        b.revisions == a.revisions,
    ensures
        is_unique(b),
{
    assert forall|h: Seq<char>, pid: usize| #[trigger]
        distinct_paragraph(a)(h, pid) implies distinct_paragraph(b)(h, pid) by {
        lemma_kept_distinct(a, b, pid);
    }
    lemma_filed_weaker(a.paragraphs_ht, distinct_paragraph(a), distinct_paragraph(b));
    assert forall|h: Seq<char>, sid: usize| #[trigger]
        distinct_sentence(a)(h, sid) implies distinct_sentence(b)(h, sid) by {}
    lemma_filed_weaker(a.sentences_ht, distinct_sentence(a), distinct_sentence(b));
    assert forall|id: u64| #[trigger] b.revisions.contains_key(id) implies is_distinct_revision(
        b,
        b.revisions[id],
    ) by {
        lemma_kept_revision(a, b, a.revisions[id]);
    }
}

/// The paragraph level on a whole text.
pub(crate) proof fn lemma_paragraph_level_once(
    a: ArticleView,
    text: Seq<char>,
    prev: RevisionView,
    curr: RevisionView,
)
    requires
        is_unique(a),
        all_filed(prev.paragraphs, distinct_paragraph(a)),
        curr.paragraphs.len() == 0,
        curr.ordered_paragraphs.len() == 0,
        paragraph_level(a, text, prev, curr, nothing_matched()).article.paragraphs.len()
            <= usize::MAX,
    ensures
        paragraphs_once(a, paragraph_level(a, text, prev, curr, nothing_matched())),
{
    let raws = paragraphs_of(text);
    let s = ParagraphState {
        article: a,
        revision: curr,
        matched: nothing_matched(),
        unmatched_curr: Seq::empty(),
        matched_prev: Seq::empty(),
    };
    lemma_paragraph_steps_grow(s, prev, raws, 0);
    assert(curr.paragraphs =~= Seq::empty());
    assert(curr.ordered_paragraphs =~= Seq::empty());
    let n = a.paragraphs.len() as int;
    assert(new_ids(n, n) =~= Seq::<usize>::empty());
    let pids = ordered_ids(curr.paragraphs, curr.ordered_paragraphs);
    assert(pids =~= Seq::<usize>::empty());
    assert(tokens_of_paragraphs(a, pids) =~= Seq::<usize>::empty());
    assert(paragraphs_once(a, s));
    lemma_paragraphs_once(a, s, prev, raws, 0);
}

proof fn lemma_text_sentences_below(b: ArticleView, pids: Seq<usize>)
    requires
        is_linked(b),
        ids_below(pids, b.paragraphs.len() as int),
    ensures
        ids_below(text_sentences(b.paragraphs, pids), b.sentences.len() as int),
    decreases pids.len(),
{
    if pids.len() > 0 {
        let less = pids.drop_last();
        assert forall|i: int| 0 <= i < less.len() implies (#[trigger] less[i])
            < b.paragraphs.len() by {
            assert(less[i] == pids[i]);
        }
        lemma_text_sentences_below(b, less);
        assert(pids[pids.len() - 1] < b.paragraphs.len());
        let p = b.paragraphs[pids.last() as int];
        lemma_ordered_below(p.sentences, p.ordered_sentences, 0, b.sentences.len() as int);
    }
}

/// What the paragraph level leaves is what the sentence level begins with.
pub(crate) proof fn lemma_sentences_begin(a: ArticleView, p: ParagraphState)
    requires
        is_linked(a),
        a.sentences.len() <= usize::MAX,
        paragraphs_once(a, p),
    ensures
        is_linked(p.article),
        sentences_once(
            a,
            p.article,
            ordered_ids(p.revision.paragraphs, p.revision.ordered_paragraphs),
            SentenceState {
                article: p.article,
                matched: p.matched,
                unmatched_curr: Seq::empty(),
                matched_prev: Seq::empty(),
                total: 0,
            },
        ),
{
    let c = p.article;
    let m = a.sentences.len() as int;
    let pids = ordered_ids(p.revision.paragraphs, p.revision.ordered_paragraphs);
    assert(new_ids(m, m) =~= Seq::<usize>::empty());
    assert forall|i: int| 0 <= i < c.paragraphs.len() implies entries_below(
        (#[trigger] c.paragraphs[i]).sentences,
        c.sentences.len() as int,
    ) by {
        if i < a.paragraphs.len() {
            assert(c.paragraphs[i] == a.paragraphs[i]);
        }
    }
    lemma_text_sentences(c, pids);
    lemma_text_sentences_below(c, pids);
    assert forall|i: int| a.paragraphs.len() <= i < c.paragraphs.len() implies in_order(
        (#[trigger] c.paragraphs[i]).sentences,
        c.paragraphs[i].ordered_sentences,
    ) && all_filed(c.paragraphs[i].sentences, used_sentence(a, c)) by {
        assert(c.paragraphs[i].sentences =~= Seq::empty());
        assert(c.paragraphs[i].ordered_sentences =~= Seq::empty());
    }
}

/// What the sentence level leaves is linked and keeps what was there.
pub(crate) proof fn lemma_sentences_linked(
    a: ArticleView,
    c: ArticleView,
    pids: Seq<usize>,
    s: SentenceState,
)
    requires
        is_linked(a),
        c == (ArticleView { paragraphs: c.paragraphs, ..a }),
        a.paragraphs.len() <= c.paragraphs.len(),
        sentences_once(a, c, pids, s),
    ensures
        is_linked(s.article),
        is_kept(a, s.article),
{
    let b = s.article;
    assert forall|i: int| 0 <= i < b.sentences.len() implies ids_below(
        (#[trigger] b.sentences[i]).words,
        b.tokens.len() as int,
    ) by {
        if i < a.sentences.len() {
            assert(b.sentences[i] == a.sentences[i]);
        }
    }
    assert forall|i: int| 0 <= i < b.paragraphs.len() implies entries_below(
        (#[trigger] b.paragraphs[i]).sentences,
        b.sentences.len() as int,
    ) by {
        let e = b.paragraphs[i].sentences;
        assert forall|k: int| 0 <= k < e.len() implies ids_below(
            (#[trigger] e[k]).1,
            b.sentences.len() as int,
        ) by {
            assert forall|j: int| 0 <= j < e[k].1.len() implies (#[trigger] e[k].1[j])
                < b.sentences.len() by {
                if i < a.paragraphs.len() {
                    assert(e == a.paragraphs[i].sentences);
                    assert(entries_below(e, a.sentences.len() as int));
                    assert(ids_below(e[k].1, a.sentences.len() as int));
                } else {
                    assert(all_filed(e, used_sentence(a, b)));
                    assert(used_sentence(a, b)(e[k].0, e[k].1[j]));
                }
            }
        }
    }
}

/// What the sentence level leaves is what the word level begins with.
pub(crate) proof fn lemma_words_begin(
    a: ArticleView,
    c: ArticleView,
    pids: Seq<usize>,
    s: SentenceState,
    tokens: Set<usize>,
)
    requires
        is_linked(s.article),
        s.article.next_token_id == s.article.tokens.len(),
        sentences_once(a, c, pids, s),
        tokens == s.matched.tokens,
    ensures
        slots_once(
            s.article,
            text_sentences(s.article.paragraphs, pids),
            a.sentences.len() as int,
        ),
        words_once(
            s.article,
            text_sentences(s.article.paragraphs, pids),
            a.sentences.len() as int,
            s.article,
            tokens,
        ),
{
    let b = s.article;
    let sids = text_sentences(b.paragraphs, pids);
    let all = words_of(b.sentences, sids);
    lemma_words_below(b.sentences, sids, b.tokens.len() as int);
    assert forall|x: usize| #[trigger] count_of(all, x) > 0 implies x < b.tokens.len()
        && tokens.contains(x) by {
        lemma_count_found(all, x);
        let i = choose|i: int| 0 <= i < all.len() && all[i] == x;
        assert(all[i] < b.tokens.len());
        assert(s.matched.tokens.contains(x));
    }
}

/// What the cascade leaves: nothing new holds a token twice, nor does the revision.
pub(crate) open spec fn is_left_unique(a: ArticleView, b: ArticleView, r: RevisionView) -> bool {
    &&& forall|i: int|
        a.sentences.len() <= i < b.sentences.len() ==> once((#[trigger] b.sentences[i]).words)
    &&& forall|i: int|
        a.paragraphs.len() <= i < b.paragraphs.len() ==> is_distinct(b, #[trigger] new_id(i))
    &&& is_distinct_revision(b, r)
}

pub(crate) proof fn lemma_words_end(
    a: ArticleView,
    c: ArticleView,
    r: RevisionView,
    s: SentenceState,
    b: ArticleView,
    tokens: Set<usize>,
)
    requires
        is_linked(a),
        c == (ArticleView { paragraphs: c.paragraphs, ..a }),
        a.paragraphs.len() <= c.paragraphs.len() <= usize::MAX,
        in_order(r.paragraphs, r.ordered_paragraphs),
        all_filed(r.paragraphs, used_paragraph(a, c)),
        once(ordered_ids(r.paragraphs, r.ordered_paragraphs)),
        forall|i: int|
            a.paragraphs.len() <= i < c.paragraphs.len() ==> ordered_ids(
                r.paragraphs,
                r.ordered_paragraphs,
            ).contains(#[trigger] new_id(i)),
        sentences_once(a, c, ordered_ids(r.paragraphs, r.ordered_paragraphs), s),
        is_linked(s.article),
        is_kept(a, s.article),
        words_once(
            s.article,
            text_sentences(
                s.article.paragraphs,
                ordered_ids(r.paragraphs, r.ordered_paragraphs),
            ),
            a.sentences.len() as int,
            b,
            tokens,
        ),
    ensures
        is_linked(b),
        is_kept(a, b),
        is_left_unique(a, b, r),
{
    let d = s.article;
    let m = a.sentences.len() as int;
    let pids = ordered_ids(r.paragraphs, r.ordered_paragraphs);
    let sids = text_sentences(d.paragraphs, pids);
    let all = words_of(b.sentences, sids);
    assert(b.paragraphs == d.paragraphs);
    lemma_text_sentences(b, pids);
    assert forall|i: int| m <= i < b.sentences.len() implies once((#[trigger] b.sentences[i]).words)
        && ids_below(b.sentences[i].words, b.tokens.len() as int) by {
        let ws = b.sentences[i].words;
        assert(count_of(sids, new_id(i)) == 1);
        lemma_count_found(sids, new_id(i));
        let j = choose|j: int| 0 <= j < sids.len() && sids[j] == new_id(i);
        assert forall|x: usize| #[trigger] count_of(ws, x) <= 1 by {
            lemma_words_part(b.sentences, sids, j, x);
            assert(count_of(all, x) <= 1);
        }
        assert forall|k: int| 0 <= k < ws.len() implies (#[trigger] ws[k]) < b.tokens.len() by {
            lemma_count_found(ws, ws[k]);
            lemma_words_part(b.sentences, sids, j, ws[k]);
            assert(count_of(all, ws[k]) > 0);
        }
    }
    assert forall|i: int| 0 <= i < b.sentences.len() implies ids_below(
        (#[trigger] b.sentences[i]).words,
        b.tokens.len() as int,
    ) by {
        if i < m {
            let ws = d.sentences[i].words;
            assert(b.sentences[i].words == ws);
            assert(ids_below(ws, d.tokens.len() as int));
            assert forall|k: int| 0 <= k < ws.len() implies (#[trigger] ws[k]) < b.tokens.len() by {}
        }
    }
    assert forall|i: int| 0 <= i < b.paragraphs.len() implies entries_below(
        (#[trigger] b.paragraphs[i]).sentences,
        b.sentences.len() as int,
    ) by {
        assert(entries_below(d.paragraphs[i].sentences, d.sentences.len() as int));
    }
    assert forall|i: int| 0 <= i < m implies (#[trigger] b.sentences[i]).words
        == a.sentences[i].words by {
        assert(d.sentences[i].words == a.sentences[i].words);
    }
    assert forall|i: int| 0 <= i < a.paragraphs.len() implies (#[trigger] b.paragraphs[i]).sentences
        == a.paragraphs[i].sentences && b.paragraphs[i].ordered_sentences
        == a.paragraphs[i].ordered_sentences by {
        assert(d.paragraphs[i].sentences == a.paragraphs[i].sentences);
    }
    assert(is_kept(a, b));
    assert forall|h: Seq<char>, sid: usize| #[trigger]
        used_sentence(a, d)(h, sid) implies distinct_sentence(b)(h, sid) by {
        if sid < m {
            assert(b.sentences[sid as int].words == a.sentences[sid as int].words);
        } else {
            assert(once(b.sentences[sid as int].words));
        }
    }
    assert forall|i: int| a.paragraphs.len() <= i < b.paragraphs.len() implies is_distinct(
        b,
        #[trigger] new_id(i),
    ) by {
        let p = b.paragraphs[i];
        assert(all_filed(d.paragraphs[i].sentences, used_sentence(a, d)));
        lemma_filed_weaker(p.sentences, used_sentence(a, d), distinct_sentence(b));
        assert(pids.contains(new_id(i)));
        let j = choose|j: int| 0 <= j < pids.len() && pids[j] == new_id(i);
        assert forall|x: usize| #[trigger] count_of(text_words(b, p), x) <= 1 by {
            lemma_paragraph_part(b, pids, j, x);
            assert(count_of(all, x) <= 1);
        }
    }
    assert forall|h: Seq<char>, pid: usize| #[trigger]
        used_paragraph(a, c)(h, pid) implies distinct_paragraph(b)(h, pid) by {
        if pid < a.paragraphs.len() {
            lemma_kept_distinct(a, b, pid);
        } else {
            assert(is_distinct(b, new_id(pid as int)));
        }
    }
    lemma_filed_weaker(r.paragraphs, used_paragraph(a, c), distinct_paragraph(b));
}

/// The previous paragraphs left over are distinct.
pub(crate) proof fn lemma_left_distinct(a: ArticleView, prev: RevisionView, m: MatchedView)
    requires
        all_filed(prev.paragraphs, distinct_paragraph(a)),
    ensures
        are_distinct(a, paragraphs_left(prev, m)),
{
    let all = ordered_ids(prev.paragraphs, prev.ordered_paragraphs);
    let left = paragraphs_left(prev, m);
    let such = |pid: usize| is_distinct(a, pid);
    lemma_filed_weaker(
        prev.paragraphs,
        distinct_paragraph(a),
        |h: Seq<char>, pid: usize| such(pid),
    );
    lemma_ordered_such(prev.paragraphs, prev.ordered_paragraphs, 0, such);
    lemma_not_in_among(all, m.paragraphs);
    assert forall|i: int| 0 <= i < left.len() implies (#[trigger] left[i]) < a.paragraphs.len()
        && all_filed(a.paragraphs[left[i] as int].sentences, distinct_sentence(a)) by {
        let j = choose|j: int| 0 <= j < all.len() && all[j] == left[i];
        assert(such(all[j]));
    }
}

/// What the cascade leaves of a text.
pub(crate) proof fn lemma_cascade_once(
    a: ArticleView,
    text: Seq<char>,
    prev: RevisionView,
    curr: RevisionView,
)
    requires
        is_unique(a),
        all_filed(prev.paragraphs, distinct_paragraph(a)),
        curr.paragraphs.len() == 0,
        curr.ordered_paragraphs.len() == 0,
        has_room(a, text, prev, curr),
    ensures
        ({
            let (b, r, out) = authorship(a, text, prev, curr);
            &&& b == (ArticleView {
                tokens: b.tokens,
                sentences: b.sentences,
                paragraphs: b.paragraphs,
                next_token_id: b.next_token_id,
                ..a
            })
            &&& b.next_token_id == b.tokens.len()
            &&& is_linked(b)
            &&& is_kept(a, b)
            &&& b.paragraphs.len() <= usize::MAX
            &&& b.sentences.len() <= usize::MAX
            &&& !out.vandalism ==> {
                &&& is_left_unique(a, b, r)
                &&& out.unmatched_paragraphs_curr == new_ids(
                    a.paragraphs.len() as int,
                    b.paragraphs.len() as int,
                )
                &&& out.unmatched_sentences_curr == new_ids(
                    a.sentences.len() as int,
                    b.sentences.len() as int,
                )
            }
        }),
{
    let m = a.sentences.len() as int;
    let p = paragraph_level(a, text, prev, curr, nothing_matched());
    let c = p.article;
    let left = paragraphs_left(prev, p.matched);
    let pids = ordered_ids(p.revision.paragraphs, p.revision.ordered_paragraphs);
    lemma_paragraph_level_once(a, text, prev, curr);
    lemma_left_distinct(a, prev, p.matched);
    let s0 = SentenceState {
        article: c,
        matched: p.matched,
        unmatched_curr: Seq::empty(),
        matched_prev: Seq::empty(),
        total: 0,
    };
    let u = sentence_pass(c, p.unmatched_curr, left, p.matched);
    assert(ids_below(p.unmatched_curr, c.paragraphs.len() as int));
    lemma_sentence_paragraphs_grow(s0, p.unmatched_curr, left, 0);
    lemma_sentences_begin(a, p);
    lemma_sentence_level_once(a, c, pids, s0, left, 0);
    let d = u.article;
    lemma_sentences_linked(a, c, pids, u);
    lemma_words_begin(a, c, pids, u, u.matched.tokens);
    lemma_words_end(a, c, p.revision, u, d, u.matched.tokens);
    let (b, r, out) = authorship(a, text, prev, curr);
    if p.unmatched_curr.len() == 0 {
        assert(new_ids(m, m) =~= Seq::<usize>::empty());
    } else {
        let (x, y, s) = sentence_level(c, p.unmatched_curr, left, p.matched);
        if s.0.len() > 0 {
            assert(ids_below(left, d.paragraphs.len() as int)) by {
                assert forall|i: int| 0 <= i < left.len() implies (#[trigger] left[i])
                    < d.paragraphs.len() by {
                    assert(left[i] < a.paragraphs.len());
                }
            }
            lemma_left_in_below(d, left, 0, u.matched.sentences, Seq::empty());
            let w = word_level(
                d,
                s.0,
                s.1,
                p.revision.ordered_paragraphs.len() > 0,
                p.revision.id,
                p.revision.original_adds as nat,
                y.tokens,
            );
            lemma_word_level_once(
                d,
                text_sentences(d.paragraphs, pids),
                m,
                s.1,
                p.revision.ordered_paragraphs.len() > 0,
                p.revision.id,
                p.revision.original_adds as nat,
                y.tokens,
            );
            lemma_words_end(a, c, p.revision, u, b, w.tokens);
            assert(is_distinct_revision(b, r));
        }
    }
}

pub(crate) proof fn lemma_paragraphs_filed_distinct(
    b: ArticleView,
    c: ArticleView,
    pids: Seq<usize>,
    k: int,
)
    requires
        0 <= k,
        ids_below(pids, c.paragraphs.len() as int),
        forall|i: int| 0 <= i < pids.len() ==> is_distinct(b, #[trigger] pids[i]),
        all_filed(c.paragraphs_ht, distinct_paragraph(b)),
    ensures
        ({
            let d = paragraphs_filed(c, pids, k);
            &&& all_filed(d.paragraphs_ht, distinct_paragraph(b))
            &&& is_kept(c, d)
            &&& d.paragraphs.len() == c.paragraphs.len()
            &&& d == (ArticleView {
                paragraphs: d.paragraphs,
                paragraphs_ht: d.paragraphs_ht,
                ..c
            })
        }),
    decreases pids.len() - k,
{
    if k < pids.len() {
        let p = c.paragraphs[pids[k] as int];
        let x = ArticleView {
            paragraphs_ht: with_id(c.paragraphs_ht, p.hash_value, pids[k]),
            ..c.set_paragraph(pids[k] as int, ParagraphView { value: Seq::empty(), ..p })
        };
        assert(distinct_paragraph(b)(p.hash_value, pids[k]));
        lemma_filed_more(c.paragraphs_ht, p.hash_value, pids[k], distinct_paragraph(b));
        lemma_paragraphs_filed_distinct(b, x, pids, k + 1);
        assert(is_kept(c, x));
        lemma_kept_trans(c, x, paragraphs_filed(c, pids, k));
    }
}

pub(crate) proof fn lemma_sentences_filed_distinct(
    b: ArticleView,
    c: ArticleView,
    sids: Seq<usize>,
    k: int,
)
    requires
        0 <= k,
        ids_below(sids, c.sentences.len() as int),
        c.sentences.len() <= b.sentences.len(),
        forall|i: int|
            0 <= i < sids.len() ==> once(b.sentences[(#[trigger] sids[i]) as int].words),
        all_filed(c.sentences_ht, distinct_sentence(b)),
    ensures
        ({
            let d = sentences_filed(c, sids, k);
            &&& all_filed(d.sentences_ht, distinct_sentence(b))
            &&& is_kept(c, d)
            &&& d.sentences.len() == c.sentences.len()
            &&& d == (ArticleView { sentences: d.sentences, sentences_ht: d.sentences_ht, ..c })
        }),
    decreases sids.len() - k,
{
    if k < sids.len() {
        let s = c.sentences[sids[k] as int];
        let x = ArticleView {
            sentences_ht: with_id(c.sentences_ht, s.hash_value, sids[k]),
            ..c.set_sentence(sids[k] as int, SentenceView { value: Seq::empty(), ..s })
        };
        assert(distinct_sentence(b)(s.hash_value, sids[k]));
        lemma_filed_more(c.sentences_ht, s.hash_value, sids[k], distinct_sentence(b));
        lemma_sentences_filed_distinct(b, x, sids, k + 1);
        assert(is_kept(c, x));
        lemma_kept_trans(c, x, sentences_filed(c, sids, k));
    }
}

pub(crate) proof fn lemma_kept_linked(a: ArticleView, b: ArticleView)
    requires
        is_linked(a),
        is_kept(a, b),
        a.sentences.len() == b.sentences.len(),
        a.paragraphs.len() == b.paragraphs.len(),
        a.tokens.len() == b.tokens.len(),
    ensures
        is_linked(b),
{
    assert forall|i: int| 0 <= i < b.sentences.len() implies ids_below(
        (#[trigger] b.sentences[i]).words,
        b.tokens.len() as int,
    ) by {
        assert(ids_below(a.sentences[i].words, a.tokens.len() as int));
    }
    assert forall|i: int| 0 <= i < b.paragraphs.len() implies entries_below(
        (#[trigger] b.paragraphs[i]).sentences,
        b.sentences.len() as int,
    ) by {
        assert(entries_below(a.paragraphs[i].sentences, a.sentences.len() as int));
    }
}

/// No revision ever holds a token twice: analysing a revision keeps it so of all
/// that is stored, and makes it so of the new one.
pub proof fn tokens_occur_once(a: ArticleView, i: InputView)
    requires
        is_unique(a),
        has_room_for(a, i),
    ensures
        is_unique(analysed(a, i).0),
{
    let text = lowercase(i.text);
    let prev = last_good(a);
    let (e, outcome) = analysed(a, i);
    if a.spam_hashes.contains(content_hash(i)) || is_shrink(
        prev.length as int,
        i.text.len() as int,
        has_comment(i),
        i.minor,
    ) {
        lemma_kept_linked(a, e);
        lemma_kept_unique(a, e);
    } else {
        let (b, r, out) = authorship(a, text, prev, blank_revision(i));
        lemma_cascade_once(a, text, prev, blank_revision(i));
        if out.vandalism {
            lemma_kept_trans(a, b, e);
            lemma_kept_linked(b, e);
            lemma_kept_unique(a, e);
        } else {
            let pids = out.unmatched_paragraphs_curr;
            let sids = out.unmatched_sentences_curr;
            let c = recorded(b, out, prev.id, i.rev_id);
            let d = paragraphs_filed(c, pids, 0);
            let f = sentences_filed(d, sids, 0);
            lemma_kept_unique(a, b);
            assert forall|k: int| 0 <= k < pids.len() implies is_distinct(b, #[trigger] pids[k]) by {
                assert(pids[k] == new_id(a.paragraphs.len() + k));
            }
            lemma_paragraphs_filed_distinct(b, c, pids, 0);
            assert forall|k: int| 0 <= k < sids.len() implies once(
                b.sentences[(#[trigger] sids[k]) as int].words,
            ) by {
                assert(sids[k] == a.sentences.len() + k);
            }
            lemma_sentences_filed_distinct(b, d, sids, 0);
            lemma_kept_trans(b, c, d);
            lemma_kept_trans(b, d, f);
            lemma_kept_trans(b, f, e);
            lemma_kept_linked(b, e);
            lemma_stored_unique(a, b, e, i.rev_id, r);
        }
    }
}

proof fn lemma_stored_unique(
    a: ArticleView,
    b: ArticleView,
    e: ArticleView,
    rev_id: u64,
    r: RevisionView,
)
    requires
        is_linked(b),
        is_kept(b, e),
        is_linked(e),
        e.next_token_id == e.tokens.len(),
        e.revisions == a.revisions.insert(rev_id, r),
        all_filed(e.paragraphs_ht, distinct_paragraph(b)),
        all_filed(e.sentences_ht, distinct_sentence(b)),
        is_distinct_revision(b, r),
        forall|id: u64| #[trigger]
            a.revisions.contains_key(id) ==> is_distinct_revision(b, a.revisions[id]),
    ensures
        is_unique(e),
{
    assert forall|h: Seq<char>, pid: usize| #[trigger]
        distinct_paragraph(b)(h, pid) implies distinct_paragraph(e)(h, pid) by {
        lemma_kept_distinct(b, e, pid);
    }
    lemma_filed_weaker(e.paragraphs_ht, distinct_paragraph(b), distinct_paragraph(e));
    assert forall|h: Seq<char>, sid: usize| #[trigger]
        distinct_sentence(b)(h, sid) implies distinct_sentence(e)(h, sid) by {}
    lemma_filed_weaker(e.sentences_ht, distinct_sentence(b), distinct_sentence(e));
    assert forall|id: u64| #[trigger] e.revisions.contains_key(id) implies is_distinct_revision(
        e,
        e.revisions[id],
    ) by {
        if id == rev_id {
            lemma_kept_revision(b, e, r);
        } else {
            assert(a.revisions.contains_key(id));
            lemma_kept_revision(b, e, a.revisions[id]);
        }
    }
}

/// Where the order names all ids, each hash stands for one.
proof fn lemma_ids_named(e: Entries, ordered: Seq<Seq<char>>, i: int, k: int)
    requires
        aligned(e, ordered),
        0 <= i <= k < ordered.len(),
    ensures
        ids_from(e, ordered, i).len() == ordered.len() - i,
        count_of(ordered.take(k), ordered[k]) < bucket(e, ordered[k]).len(),
        ids_from(e, ordered, i)[k - i] == bucket(e, ordered[k])[count_of(
            ordered.take(k),
            ordered[k],
        ) as int],
    decreases ordered.len() - i,
{
    let n = ordered.len() as int;
    lemma_count_before(ordered, k, n);
    lemma_count_before(ordered, i, n);
    assert(ordered.take(n) =~= ordered);
    assert(count_of(ordered, ordered[k]) == bucket(e, ordered[k]).len());
    assert(count_of(ordered, ordered[i]) == bucket(e, ordered[i]).len());
    let rest = ids_from(e, ordered, i + 1);
    if i + 1 < n {
        lemma_ids_named(e, ordered, i + 1, if k > i {
            k
        } else {
            i + 1
        });
    }
    if k > i {
        assert(ids_from(e, ordered, i)[k - i] == rest[k - i - 1]);
    }
}

/// Each occurrence of a hash has a position.
proof fn lemma_occurrence(ordered: Seq<Seq<char>>, k: int, h: Seq<char>, nth: int) -> (j: int)
    requires
        0 <= k <= ordered.len(),
        0 <= nth < count_of(ordered.take(k), h),
    ensures
        0 <= j < k,
        ordered[j] == h,
        count_of(ordered.take(j), h) == nth,
    decreases k,
{
    let t = ordered.take(k);
    assert(t.drop_last() =~= ordered.take(k - 1));
    assert(t.last() == ordered[k - 1]);
    if nth < count_of(ordered.take(k - 1), h) {
        lemma_occurrence(ordered, k - 1, h, nth)
    } else {
        k - 1
    }
}

/// Two of the paragraphs are counted apart.
proof fn lemma_two_parts(b: ArticleView, pids: Seq<usize>, j: int, k: int, x: usize)
    requires
        0 <= j < k < pids.len(),
    ensures
        count_of(text_words(b, b.paragraphs[pids[j] as int]), x) + count_of(
            text_words(b, b.paragraphs[pids[k] as int]),
            x,
        ) <= count_of(tokens_of_paragraphs(b, pids), x),
    decreases pids.len(),
{
    let less = pids.drop_last();
    lemma_count_add(
        tokens_of_paragraphs(b, less),
        text_words(b, b.paragraphs[pids.last() as int]),
        x,
    );
    assert(less[j] == pids[j]);
    if k < less.len() {
        assert(less[k] == pids[k]);
        lemma_two_parts(b, less, j, k, x);
    } else {
        lemma_paragraph_part(b, less, j, x);
    }
}

/// The tokens of a paragraph are those in the order of its text.
pub(crate) proof fn lemma_among_text(a: ArticleView, pid: usize, x: usize)
    requires
        is_distinct(a, pid),
        paragraph_words(a, pid).contains(x),
    ensures
        count_of(text_words(a, a.paragraphs[pid as int]), x) > 0,
{
    let p = a.paragraphs[pid as int];
    let sids = ordered_ids(p.sentences, p.ordered_sentences);
    let all = all_ids(p.sentences);
    assert forall|i: int| 0 <= i < all.len() implies sids.contains(#[trigger] all[i]) by {
        assert(all.contains(all[i]));
    }
    lemma_words_among(a.sentences, all, sids, x);
    lemma_count_found(words_of(a.sentences, sids), x);
}

/// The digests of texts.
pub open spec fn digests(vs: Seq<Seq<char>>) -> Seq<Seq<char>> {
    vs.map_values(|v: Seq<char>| md5_hex(v))
}

/// What the paragraph level keeps on a text that the previous revision has: the
/// first `k` paragraphs were taken from there, and nothing else was.
spec fn is_repeated(a: ArticleView, prev: RevisionView, s: ParagraphState, k: int) -> bool {
    let pids = ordered_ids(prev.paragraphs, prev.ordered_paragraphs);
    let done = prev.ordered_paragraphs.take(k);
    &&& s.article == a
    &&& s.unmatched_curr.len() == 0
    &&& s.revision.ordered_paragraphs == done
    &&& forall|h: Seq<char>| #[trigger]
        bucket(s.revision.paragraphs, h) == bucket(prev.paragraphs, h).take(
            count_of(done, h) as int,
        )
    &&& forall|j: int| 0 <= j < k ==> s.matched.paragraphs.contains(#[trigger] pids[j])
    &&& forall|pid: usize| #[trigger]
        s.matched.paragraphs.contains(pid) ==> pids.take(k).contains(pid)
    &&& forall|x: usize| #[trigger]
        s.matched.tokens.contains(x) ==> exists|j: int|
            0 <= j < k && paragraph_words(a, #[trigger] pids[j]).contains(x)
}

proof fn lemma_scan_repeats(
    a: ArticleView,
    ids: Seq<usize>,
    i: int,
    c: int,
    m: MatchedView,
    past: Seq<usize>,
)
    requires
        0 <= i <= c < ids.len(),
        forall|j: int| 0 <= j < c ==> m.paragraphs.contains(#[trigger] ids[j]),
        !m.paragraphs.contains(ids[c]),
        !any_matched(paragraph_words(a, ids[c]), m.tokens),
    ensures
        scan_paragraphs(a, ids, i, m, past).2 == Some(ids[c]),
        scan_paragraphs(a, ids, i, m, past).0 == crate::cascade::paragraph_taken(a, m, ids[c]),
    decreases c - i,
{
    if i < c {
        assert(m.paragraphs.contains(ids[i]));
        lemma_scan_repeats(a, ids, i + 1, c, m, past);
    }
}

proof fn lemma_paragraph_repeats(
    a: ArticleView,
    prev: RevisionView,
    s: ParagraphState,
    raw: Seq<char>,
    k: int,
)
    requires
        is_distinct_revision(a, prev),
        0 <= k < prev.ordered_paragraphs.len(),
        is_repeated(a, prev, s, k),
        trimmed(raw).len() > 0,
        md5_hex(trimmed(raw)) == prev.ordered_paragraphs[k],
    ensures
        is_repeated(a, prev, paragraph_step(s, prev, raw), k + 1),
{
    let ordered = prev.ordered_paragraphs;
    let hash = ordered[k];
    let ids = bucket(prev.paragraphs, hash);
    let pids = ordered_ids(prev.paragraphs, ordered);
    let c = count_of(ordered.take(k), hash) as int;
    let u = paragraph_step(s, prev, raw);
    let m = s.matched;
    lemma_ids_named(prev.paragraphs, ordered, 0, k);
    let pid = ids[c];
    assert(pids[k] == pid);
    assert forall|j: int| 0 <= j < c implies m.paragraphs.contains(#[trigger] ids[j]) by {
        let i = lemma_occurrence(ordered, k, hash, j);
        lemma_ids_named(prev.paragraphs, ordered, 0, i);
        assert(pids[i] == ids[j]);
    }
    if m.paragraphs.contains(pid) {
        let less = pids.take(k);
        let j = choose|j: int| 0 <= j < less.len() && less[j] == pid;
        assert(count_of(pids, pid) <= 1);
        lemma_twice(pids, j, k);
    }
    lemma_revision_below(a, prev);
    let ws = paragraph_words(a, pid);
    if any_matched(ws, m.tokens) {
        let i = choose|i: int| 0 <= i < ws.len() && m.tokens.contains(#[trigger] ws[i]);
        let x = ws[i];
        let j = choose|j: int| 0 <= j < k && paragraph_words(a, #[trigger] pids[j]).contains(x);
        lemma_pids_distinct(a, prev, j);
        lemma_pids_distinct(a, prev, k);
        lemma_among_text(a, pids[j], x);
        assert(ws.contains(x));
        lemma_among_text(a, pid, x);
        lemma_two_parts(a, pids, j, k, x);
        assert(count_of(revision_tokens(a, prev), x) <= 1);
    }
    lemma_scan_repeats(a, ids, 0, c, m, s.matched_prev);
    let done = ordered.take(k + 1);
    assert(done =~= ordered.take(k).push(hash));
    assert forall|h: Seq<char>| #[trigger]
        bucket(u.revision.paragraphs, h) == bucket(prev.paragraphs, h).take(
            count_of(done, h) as int,
        ) by {
        crate::readback::lemma_bucket_more(s.revision.paragraphs, hash, pid, h);
        crate::readback::lemma_count_push(ordered.take(k), hash, h);
        assert(bucket(s.revision.paragraphs, h) == bucket(prev.paragraphs, h).take(
            count_of(ordered.take(k), h) as int,
        ));
        if h == hash {
            assert(ids.take(c + 1) =~= ids.take(c).push(pid));
        }
    }
    assert forall|j: int| 0 <= j < k + 1 implies u.matched.paragraphs.contains(
        #[trigger] pids[j],
    ) by {
        if j < k {
            assert(s.matched.paragraphs.contains(pids[j]));
        }
    }
    assert forall|id: usize| #[trigger] u.matched.paragraphs.contains(id) implies pids.take(
        k + 1,
    ).contains(id) by {
        if id == pid {
            assert(pids.take(k + 1)[k] == pid);
        } else {
            assert(s.matched.paragraphs.contains(id));
            let less = pids.take(k);
            let j = choose|j: int| 0 <= j < less.len() && less[j] == id;
            assert(pids.take(k + 1)[j] == id);
        }
    }
    assert forall|x: usize| #[trigger] u.matched.tokens.contains(x) implies exists|j: int|
        0 <= j < k + 1 && paragraph_words(a, #[trigger] pids[j]).contains(x) by {
        if s.matched.tokens.contains(x) {
            let j = choose|j: int|
                0 <= j < k && paragraph_words(a, #[trigger] pids[j]).contains(x);
            assert(paragraph_words(a, pids[j]).contains(x));
        } else {
            assert(ws.to_set().contains(x));
            assert(paragraph_words(a, pids[k]).contains(x));
        }
    }
}

proof fn lemma_twice(s: Seq<usize>, j: int, k: int)
    requires
        0 <= j < k < s.len(),
        s[j] == s[k],
    ensures
        count_of(s, s[k]) >= 2,
    decreases s.len(),
{
    let less = s.drop_last();
    if k < s.len() - 1 {
        assert(less[j] == s[j] && less[k] == s[k]);
        lemma_twice(less, j, k);
    } else {
        assert(less[j] == s[k]);
        lemma_count_found(less, s[k]);
    }
}

pub(crate) proof fn lemma_pids_distinct(a: ArticleView, r: RevisionView, j: int)
    requires
        all_filed(r.paragraphs, distinct_paragraph(a)),
        0 <= j < ordered_ids(r.paragraphs, r.ordered_paragraphs).len(),
    ensures
        is_distinct(a, ordered_ids(r.paragraphs, r.ordered_paragraphs)[j]),
{
    let such = |pid: usize| is_distinct(a, pid);
    lemma_filed_weaker(
        r.paragraphs,
        distinct_paragraph(a),
        |h: Seq<char>, pid: usize| such(pid),
    );
    lemma_ordered_such(r.paragraphs, r.ordered_paragraphs, 0, such);
    assert(such(ordered_ids(r.paragraphs, r.ordered_paragraphs)[j]));
}

proof fn lemma_paragraphs_repeat(
    a: ArticleView,
    prev: RevisionView,
    s: ParagraphState,
    raws: Seq<Seq<char>>,
    k: int,
)
    requires
        is_distinct_revision(a, prev),
        0 <= k <= raws.len(),
        digests(solid_paragraphs(raws)) == prev.ordered_paragraphs,
        is_repeated(a, prev, s, solid_paragraphs(raws.take(k)).len() as int),
    ensures
        is_repeated(
            a,
            prev,
            paragraph_steps(s, prev, raws, k),
            prev.ordered_paragraphs.len() as int,
        ),
    decreases raws.len() - k,
{
    if k < raws.len() {
        let vs = solid_paragraphs(raws.take(k));
        assert(raws.take(k + 1).drop_last() =~= raws.take(k));
        assert(raws.take(k + 1).last() == raws[k]);
        if trimmed(raws[k]).len() > 0 {
            lemma_solid_prefix(raws, k + 1);
            let more = solid_paragraphs(raws.take(k + 1));
            assert(more == vs.push(trimmed(raws[k])));
            assert(more[vs.len() as int] == trimmed(raws[k]));
            assert(solid_paragraphs(raws)[vs.len() as int] == trimmed(raws[k]));
            assert(digests(solid_paragraphs(raws))[vs.len() as int] == md5_hex(trimmed(raws[k])));
            lemma_paragraph_repeats(a, prev, s, raws[k], vs.len() as int);
        }
        lemma_paragraphs_repeat(a, prev, paragraph_step(s, prev, raws[k]), raws, k + 1);
    } else {
        assert(raws.take(k) =~= raws);
    }
}

proof fn lemma_solid_prefix(raws: Seq<Seq<char>>, k: int)
    requires
        0 <= k <= raws.len(),
    ensures
        solid_paragraphs(raws.take(k)).len() <= solid_paragraphs(raws).len(),
        forall|i: int|
            0 <= i < solid_paragraphs(raws.take(k)).len() ==> solid_paragraphs(raws)[i]
                == #[trigger] solid_paragraphs(raws.take(k))[i],
    decreases raws.len() - k,
{
    if k < raws.len() {
        lemma_solid_prefix(raws, k + 1);
        assert(raws.take(k + 1).drop_last() =~= raws.take(k));
        let less = solid_paragraphs(raws.take(k));
        let more = solid_paragraphs(raws.take(k + 1));
        assert forall|i: int| 0 <= i < less.len() implies solid_paragraphs(raws)[i]
            == #[trigger] less[i] by {
            assert(more[i] == less[i]);
        }
    } else {
        assert(raws.take(k) =~= raws);
    }
}

/// The paragraphs of a revision are named by their digests.
proof fn lemma_digests_kept(s: ParagraphState, prev: RevisionView, raws: Seq<Seq<char>>, k: int)
    requires
        0 <= k <= raws.len(),
        s.revision.ordered_paragraphs == digests(solid_paragraphs(raws.take(k))),
    ensures
        paragraph_steps(s, prev, raws, k).revision.ordered_paragraphs == digests(
            solid_paragraphs(raws),
        ),
    decreases raws.len() - k,
{
    if k < raws.len() {
        let u = paragraph_step(s, prev, raws[k]);
        assert(raws.take(k + 1).drop_last() =~= raws.take(k));
        assert(raws.take(k + 1).last() == raws[k]);
        if trimmed(raws[k]).len() > 0 {
            assert(u.revision.ordered_paragraphs =~= digests(
                solid_paragraphs(raws.take(k + 1)),
            ));
        }
        lemma_digests_kept(u, prev, raws, k + 1);
    } else {
        assert(raws.take(k) =~= raws);
    }
}

proof fn lemma_same_buckets(e: Entries, f: Entries, ordered: Seq<Seq<char>>, i: int)
    requires
        forall|h: Seq<char>| #[trigger] bucket(e, h) == bucket(f, h),
    ensures
        ids_from(e, ordered, i) == ids_from(f, ordered, i),
    decreases ordered.len() - i,
{
    if 0 <= i < ordered.len() {
        lemma_same_buckets(e, f, ordered, i + 1);
        assert(bucket(e, ordered[i]) == bucket(f, ordered[i]));
    }
}

/// The cascade on a text that the previous revision has.
proof fn lemma_cascade_repeats(
    a: ArticleView,
    text: Seq<char>,
    prev: RevisionView,
    curr: RevisionView,
)
    requires
        is_distinct_revision(a, prev),
        prev.ordered_paragraphs == digests(solid_paragraphs(paragraphs_of(text))),
        curr.paragraphs.len() == 0,
        curr.ordered_paragraphs.len() == 0,
    ensures
        ({
            let (b, r, out) = authorship(a, text, prev, curr);
            &&& b == a
            &&& !out.vandalism
            &&& out.unmatched_paragraphs_curr.len() == 0
            &&& out.unmatched_sentences_curr.len() == 0
            &&& ordered_ids(r.paragraphs, r.ordered_paragraphs) == ordered_ids(
                prev.paragraphs,
                prev.ordered_paragraphs,
            )
        }),
{
    let raws = paragraphs_of(text);
    let ordered = prev.ordered_paragraphs;
    let s = ParagraphState {
        article: a,
        revision: curr,
        matched: nothing_matched(),
        unmatched_curr: Seq::empty(),
        matched_prev: Seq::empty(),
    };
    assert(raws.take(0) =~= Seq::<Seq<char>>::empty());
    assert(is_repeated(a, prev, s, 0)) by {
        assert(curr.ordered_paragraphs =~= ordered.take(0));
        assert forall|h: Seq<char>| #[trigger]
            bucket(curr.paragraphs, h) == bucket(prev.paragraphs, h).take(
                count_of(ordered.take(0), h) as int,
            ) by {
            assert(curr.paragraphs =~= Seq::empty());
            assert(bucket(curr.paragraphs, h) =~= Seq::<usize>::empty());
        }
    }
    lemma_paragraphs_repeat(a, prev, s, raws, 0);
    let u = paragraph_steps(s, prev, raws, 0);
    let n = ordered.len() as int;
    assert(ordered.take(n) =~= ordered);
    assert forall|h: Seq<char>| #[trigger]
        bucket(u.revision.paragraphs, h) == bucket(prev.paragraphs, h) by {
        assert(count_of(ordered, h) == bucket(prev.paragraphs, h).len());
        assert(bucket(prev.paragraphs, h).take(count_of(ordered, h) as int) =~= bucket(
            prev.paragraphs,
            h,
        ));
    }
    lemma_same_buckets(u.revision.paragraphs, prev.paragraphs, ordered, 0);
}

/// A revision with the same text as the one before adds nothing: no token, no
/// sentence, no paragraph. It is made of the very tokens of the one before.
pub proof fn same_text_adds_nothing(a: ArticleView, i: InputView, j: InputView)
    requires
        is_unique(a),
        has_room_for(a, i),
        analysed(a, i).1 is Stored,
        j.text == i.text,
    ensures
        ({
            let b = analysed(a, i).0;
            let (c, outcome) = analysed(b, j);
            &&& c.tokens.len() == b.tokens.len()
            &&& c.sentences.len() == b.sentences.len()
            &&& c.paragraphs.len() == b.paragraphs.len()
            &&& outcome is Stored ==> revision_tokens(c, c.revisions[j.rev_id])
                == revision_tokens(b, b.revisions[i.rev_id])
        }),
{
    let text = lowercase(i.text);
    let b = analysed(a, i).0;
    let prev = last_good(b);
    let s = ParagraphState {
        article: a,
        revision: blank_revision(i),
        matched: nothing_matched(),
        unmatched_curr: Seq::empty(),
        matched_prev: Seq::empty(),
    };
    let raws = paragraphs_of(text);
    assert(raws.take(0) =~= Seq::<Seq<char>>::empty());
    assert(blank_revision(i).ordered_paragraphs =~= digests(solid_paragraphs(raws.take(0))));
    lemma_digests_kept(s, last_good(a), raws, 0);
    assert(b.revisions.contains_key(i.rev_id));
    assert(prev == b.revisions[i.rev_id]);
    assert(prev.ordered_paragraphs == digests(solid_paragraphs(raws)));
    tokens_occur_once(a, i);
    lemma_cascade_repeats(b, text, prev, blank_revision(j));
    let (c, outcome) = analysed(b, j);
    if outcome is Stored {
        let (x, r, out) = authorship(b, text, prev, blank_revision(j));
        let d = recorded(b, out, prev.id, j.rev_id);
        assert(paragraphs_filed(d, out.unmatched_paragraphs_curr, 0) == d);
        assert(sentences_filed(d, out.unmatched_sentences_curr, 0) == d);
        let pids = ordered_ids(prev.paragraphs, prev.ordered_paragraphs);
        lemma_revision_below(b, prev);
        assert(is_kept(b, c));
        lemma_kept_paragraphs(b, c, pids);
    }
}

} // verus!
