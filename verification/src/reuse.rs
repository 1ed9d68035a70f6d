//! What is reused: a sentence or a paragraph that stood in any earlier revision is not
//! written anew where it can be read again.
use crate::buckets::{bucket, with_id};
use crate::cascade::{
    authorship, cascaded, find_paragraph, find_sentence, lemma_paragraph_steps_grow,
    lemma_sentence_paragraphs_grow, lemma_sentence_steps_grow, lemma_word_level_grows, normalized,
    nothing_matched, paragraph_level, paragraph_step, paragraph_steps, paragraph_words,
    paragraphs_left, recorded, scan_in_paragraphs, scan_paragraphs, scan_sentences, sentence_level,
    sentence_paragraphs, sentence_pass, sentence_step, sentence_steps, sentence_words, word_values,
    ParagraphState, SentenceState,
};
use crate::lifetimes::{lemma_cascade_seeks, sentence_in_use};
use crate::outside::{lowercase, md5_hex};
use crate::pipeline::{
    analysed, blank_revision, content_hash, has_comment, last_good, paragraphs_filed,
    sentences_filed, InputView,
};
use crate::readback::{
    all_filed, has_room, has_room_for, is_filling, is_linked, lemma_assigned, lemma_bucket_more,
    lemma_filed_bucket, lemma_filed_more, lemma_filed_weaker, lemma_left_in_below,
    lemma_not_in_among, lemma_ordered_such, lemma_word_level_fills, new_ids,
};
use crate::spam::is_shrink;
use crate::structures::{
    ids_below, lemma_grow_trans, ordered_ids, revision_tokens, same_word, ArticleView, MatchedView,
    ParagraphView, RevisionView, SentenceView,
};
use crate::text::{joined, split_on, trimmed, trimmed_begins_solid};
use crate::tokenize::{paragraphs_of, sentence_round_trip, sentences_of, text_has_tokens};
use crate::uniqueness::{
    is_distinct_revision, is_kept, is_unique, lemma_cascade_once, lemma_kept_paragraphs,
    lemma_kept_trans, lemma_revision_below, lemma_scan_takes, lemma_scan_takes_sentence,
};
use vstd::prelude::*;

verus! {

/// The text of a sentence: its tokens with spaces between them.
pub open spec fn sentence_text(a: ArticleView, sid: usize) -> Seq<char> {
    joined(word_values(a, a.sentences[sid as int].words), " "@)
}

/// Whether a sentence has tokens, and the hash is that of its text.
pub open spec fn is_keyed(a: ArticleView, hash: Seq<char>, sid: usize) -> bool {
    &&& sid < a.sentences.len()
    &&& a.sentences[sid as int].words.len() > 0
    &&& hash == md5_hex(sentence_text(a, sid))
}

/// [`is_keyed`] for all that is filed.
pub open spec fn keyed_sentence(a: ArticleView) -> spec_fn(Seq<char>, usize) -> bool {
    |hash: Seq<char>, sid: usize| is_keyed(a, hash, sid)
}

/// Whether a sentence is also found among all that are stored.
pub open spec fn is_shelved(a: ArticleView, hash: Seq<char>, sid: usize) -> bool {
    is_keyed(a, hash, sid) && bucket(a.sentences_ht, hash).contains(sid)
}

/// [`is_shelved`] for all that is filed.
pub open spec fn shelved_sentence(a: ArticleView) -> spec_fn(Seq<char>, usize) -> bool {
    |hash: Seq<char>, sid: usize| is_shelved(a, hash, sid)
}

/// Whether a paragraph has the hash, and its sentences are found among all that are
/// stored.
pub open spec fn is_sound(a: ArticleView, hash: Seq<char>, pid: usize) -> bool {
    &&& pid < a.paragraphs.len()
    &&& a.paragraphs[pid as int].hash_value == hash
    &&& all_filed(a.paragraphs[pid as int].sentences, shelved_sentence(a))
}

/// [`is_sound`] for all that is filed.
pub open spec fn sound_paragraph(a: ArticleView) -> spec_fn(Seq<char>, usize) -> bool {
    |hash: Seq<char>, pid: usize| is_sound(a, hash, pid)
}

/// Whether a paragraph is also found among all that are stored.
pub open spec fn is_listed(a: ArticleView, hash: Seq<char>, pid: usize) -> bool {
    is_sound(a, hash, pid) && bucket(a.paragraphs_ht, hash).contains(pid)
}

/// [`is_listed`] for all that is filed.
pub open spec fn listed_paragraph(a: ArticleView) -> spec_fn(Seq<char>, usize) -> bool {
    |hash: Seq<char>, pid: usize| is_listed(a, hash, pid)
}

/// What an article keeps from one revision to the next: every paragraph and every
/// sentence of every stored revision is found under its hash.
pub open spec fn is_catalogue(a: ArticleView) -> bool {
    &&& all_filed(a.sentences_ht, keyed_sentence(a))
    &&& all_filed(a.paragraphs_ht, sound_paragraph(a))
    &&& forall|id: u64| #[trigger]
        a.revisions.contains_key(id) ==> all_filed(a.revisions[id].paragraphs, listed_paragraph(a))
}

/// Whether a paragraph is one of a revision.
pub open spec fn has_paragraph(r: RevisionView, pid: usize) -> bool {
    ordered_ids(r.paragraphs, r.ordered_paragraphs).contains(pid)
}

/// Whether a sentence is one of a revision.
pub open spec fn has_sentence(a: ArticleView, r: RevisionView, sid: usize) -> bool {
    exists|pid: usize| #[trigger]
        has_paragraph(r, pid) && ordered_ids(
            a.paragraphs[pid as int].sentences,
            a.paragraphs[pid as int].ordered_sentences,
        ).contains(sid)
}

/// Whether one of the tokens of a sentence stands in a revision.
pub open spec fn shares_token(a: ArticleView, sid: usize, r: RevisionView) -> bool {
    exists|k: int|
        0 <= k < a.sentences[sid as int].words.len() && revision_tokens(a, r).contains(
            #[trigger] a.sentences[sid as int].words[k],
        )
}

/// Whether a text is made of words with one space between them.
spec fn is_normal(v: Seq<char>) -> bool {
    split_on(v, " "@).len() > 0 && joined(split_on(v, " "@), " "@) == v
}

proof fn lemma_normal(raw: Seq<char>)
    requires
        trimmed(raw).len() > 0,
    ensures
        is_normal(normalized(trimmed(raw))),
{
    let t = trimmed(raw);
    trimmed_begins_solid(raw);
    text_has_tokens(t, 0);
    sentence_round_trip(t);
}

/// What the paragraph level puts into the revision: what is found among all that are
/// stored, or something new that has the hash.
spec fn placed_paragraph(a: ArticleView, b: ArticleView) -> spec_fn(Seq<char>, usize) -> bool {
    |hash: Seq<char>, pid: usize|
        if pid < a.paragraphs.len() {
            is_listed(a, hash, pid)
        } else {
            pid < b.paragraphs.len() && b.paragraphs[pid as int].hash_value == hash
        }
}

spec fn paragraphs_placed(a: ArticleView, s: ParagraphState) -> bool {
    let b = s.article;
    &&& b == (ArticleView { paragraphs: b.paragraphs, ..a })
    &&& a.paragraphs.len() <= b.paragraphs.len() <= usize::MAX
    &&& forall|i: int|
        0 <= i < a.paragraphs.len() ==> #[trigger] b.paragraphs[i] == a.paragraphs[i]
    &&& forall|i: int|
        a.paragraphs.len() <= i < b.paragraphs.len() ==> (#[trigger] b.paragraphs[i]).sentences.len()
            == 0
    &&& all_filed(s.revision.paragraphs, placed_paragraph(a, b))
}

proof fn lemma_found_listed(
    a: ArticleView,
    b: ArticleView,
    prev: RevisionView,
    hash: Seq<char>,
    m: MatchedView,
    past: Seq<usize>,
)
    requires
        b.paragraphs_ht == a.paragraphs_ht,
        all_filed(a.paragraphs_ht, sound_paragraph(a)),
        all_filed(prev.paragraphs, listed_paragraph(a)),
    ensures
        ({
            let found = find_paragraph(b, prev, hash, m, past).2;
            found is Some ==> is_listed(a, hash, found->0)
        }),
{
    let near = bucket(prev.paragraphs, hash);
    let far = bucket(a.paragraphs_ht, hash);
    let first = scan_paragraphs(b, near, 0, m, past);
    let second = scan_paragraphs(b, far, 0, first.0, first.1);
    lemma_filed_bucket(prev.paragraphs, hash, listed_paragraph(a));
    lemma_filed_bucket(a.paragraphs_ht, hash, sound_paragraph(a));
    lemma_scan_takes(b, near, 0, m, past);
    lemma_scan_takes(b, far, 0, first.0, first.1);
    if first.2 is Some {
        let j = choose|j: int| 0 <= j < near.len() && near[j] == first.2->0;
        assert(listed_paragraph(a)(hash, near[j]));
    } else if second.2 is Some {
        let j = choose|j: int| 0 <= j < far.len() && far[j] == second.2->0;
        assert(sound_paragraph(a)(hash, far[j]));
    }
}

proof fn lemma_paragraphs_placed(
    a: ArticleView,
    s: ParagraphState,
    prev: RevisionView,
    raws: Seq<Seq<char>>,
    k: int,
)
    requires
        all_filed(a.paragraphs_ht, sound_paragraph(a)),
        all_filed(prev.paragraphs, listed_paragraph(a)),
        paragraphs_placed(a, s),
        0 <= k <= raws.len(),
        paragraph_steps(s, prev, raws, k).article.paragraphs.len() <= usize::MAX,
    ensures
        paragraphs_placed(a, paragraph_steps(s, prev, raws, k)),
    decreases raws.len() - k,
{
    if k < raws.len() {
        let u = paragraph_step(s, prev, raws[k]);
        let b = s.article;
        let c = u.article;
        let text = trimmed(raws[k]);
        let hash = md5_hex(text);
        lemma_paragraph_steps_grow(u, prev, raws, k + 1);
        assert(c.paragraphs.len() <= usize::MAX);
        if text.len() > 0 {
            let found = find_paragraph(b, prev, hash, s.matched, s.matched_prev).2;
            lemma_found_listed(a, b, prev, hash, s.matched, s.matched_prev);
            assert forall|h: Seq<char>, pid: usize| #[trigger]
                placed_paragraph(a, b)(h, pid) implies placed_paragraph(a, c)(h, pid) by {
                if pid >= a.paragraphs.len() {
                    assert(c.paragraphs[pid as int] == b.paragraphs[pid as int]);
                }
            }
            lemma_filed_weaker(
                s.revision.paragraphs,
                placed_paragraph(a, b),
                placed_paragraph(a, c),
            );
            let pid = match found {
                Some(pid) => pid,
                None => b.paragraphs.len() as usize,
            };
            assert(placed_paragraph(a, c)(hash, pid));
            lemma_filed_more(s.revision.paragraphs, hash, pid, placed_paragraph(a, c));
            assert forall|i: int| 0 <= i < a.paragraphs.len() implies #[trigger] c.paragraphs[i]
                == a.paragraphs[i] by {
                assert(c.paragraphs[i] == b.paragraphs[i]);
            }
        }
        assert(paragraphs_placed(a, u));
        lemma_paragraphs_placed(a, u, prev, raws, k + 1);
    }
}

/// What the sentence level puts into new paragraphs: what is found among all that are
/// stored, or something new that has the hash.
spec fn placed_sentence(a: ArticleView, b: ArticleView) -> spec_fn(Seq<char>, usize) -> bool {
    |hash: Seq<char>, sid: usize|
        if sid < a.sentences.len() {
            is_shelved(a, hash, sid)
        } else {
            sid < b.sentences.len() && b.sentences[sid as int].hash_value == hash
        }
}

spec fn sentences_placed(a: ArticleView, c: ArticleView, s: SentenceState) -> bool {
    let b = s.article;
    &&& b == (ArticleView { paragraphs: b.paragraphs, sentences: b.sentences, ..c })
    &&& a.sentences.len() <= b.sentences.len() <= usize::MAX
    &&& forall|i: int| 0 <= i < a.sentences.len() ==> #[trigger] b.sentences[i] == a.sentences[i]
    &&& forall|i: int|
        a.sentences.len() <= i < b.sentences.len() ==> (#[trigger] b.sentences[i]).words.len() == 0
            && is_normal(b.sentences[i].value) && b.sentences[i].hash_value == md5_hex(
            b.sentences[i].value,
        )
    &&& s.unmatched_curr == new_ids(a.sentences.len() as int, b.sentences.len() as int)
    &&& b.paragraphs.len() == c.paragraphs.len()
    &&& forall|i: int|
        0 <= i < a.paragraphs.len() ==> #[trigger] b.paragraphs[i] == a.paragraphs[i]
    &&& forall|i: int|
        a.paragraphs.len() <= i < b.paragraphs.len() ==> all_filed(
            (#[trigger] b.paragraphs[i]).sentences,
            placed_sentence(a, b),
        )
}

/// Whether the paragraphs are of `a`, and their sentences found among all that are
/// stored.
spec fn are_sound(a: ArticleView, pids: Seq<usize>) -> bool {
    forall|i: int|
        0 <= i < pids.len() ==> (#[trigger] pids[i]) < a.paragraphs.len() && all_filed(
            a.paragraphs[pids[i] as int].sentences,
            shelved_sentence(a),
        )
}

proof fn lemma_found_in(
    a: ArticleView,
    b: ArticleView,
    pids: Seq<usize>,
    k: int,
    hash: Seq<char>,
    m: MatchedView,
    past: Seq<usize>,
)
    requires
        0 <= k,
        are_sound(a, pids),
        forall|i: int|
            0 <= i < a.paragraphs.len() ==> #[trigger] b.paragraphs[i] == a.paragraphs[i],
    ensures
        ({
            let found = scan_in_paragraphs(b, pids, k, hash, m, past).2;
            found is Some ==> is_shelved(a, hash, found->0)
        }),
    decreases pids.len() - k,
{
    if k < pids.len() {
        let p = a.paragraphs[pids[k] as int];
        assert(b.paragraphs[pids[k] as int] == p);
        let ids = bucket(p.sentences, hash);
        let here = scan_sentences(b, ids, 0, m, past);
        lemma_scan_takes_sentence(b, ids, 0, m, past);
        lemma_filed_bucket(p.sentences, hash, shelved_sentence(a));
        if here.2 is Some {
            let j = choose|j: int| 0 <= j < ids.len() && ids[j] == here.2->0;
            assert(shelved_sentence(a)(hash, ids[j]));
        } else {
            lemma_found_in(a, b, pids, k + 1, hash, here.0, here.1);
        }
    }
}

proof fn lemma_found_shelved(
    a: ArticleView,
    b: ArticleView,
    pids: Seq<usize>,
    hash: Seq<char>,
    m: MatchedView,
    past: Seq<usize>,
)
    requires
        b.sentences_ht == a.sentences_ht,
        all_filed(a.sentences_ht, keyed_sentence(a)),
        are_sound(a, pids),
        forall|i: int|
            0 <= i < a.paragraphs.len() ==> #[trigger] b.paragraphs[i] == a.paragraphs[i],
    ensures
        ({
            let found = find_sentence(b, pids, hash, m, past).2;
            found is Some ==> is_shelved(a, hash, found->0)
        }),
{
    let far = bucket(a.sentences_ht, hash);
    let first = scan_in_paragraphs(b, pids, 0, hash, m, past);
    let second = scan_sentences(b, far, 0, first.0, first.1);
    lemma_found_in(a, b, pids, 0, hash, m, past);
    lemma_scan_takes_sentence(b, far, 0, first.0, first.1);
    lemma_filed_bucket(a.sentences_ht, hash, keyed_sentence(a));
    if first.2 is None && second.2 is Some {
        let j = choose|j: int| 0 <= j < far.len() && far[j] == second.2->0;
        assert(keyed_sentence(a)(hash, far[j]));
    }
}

proof fn lemma_sentence_placed(
    a: ArticleView,
    c: ArticleView,
    s: SentenceState,
    pid: usize,
    prevs: Seq<usize>,
    raw: Seq<char>,
)
    requires
        c.sentences_ht == a.sentences_ht,
        all_filed(a.sentences_ht, keyed_sentence(a)),
        are_sound(a, prevs),
        sentences_placed(a, c, s),
        a.paragraphs.len() <= pid < c.paragraphs.len(),
        trimmed(raw).len() > 0,
        sentence_step(s, pid, prevs, raw).article.sentences.len() <= usize::MAX,
    ensures
        sentences_placed(a, c, sentence_step(s, pid, prevs, raw)),
{
    let b = s.article;
    let u = sentence_step(s, pid, prevs, raw);
    let d = u.article;
    let value = normalized(trimmed(raw));
    let hash = md5_hex(value);
    let m = a.sentences.len() as int;
    let found = find_sentence(b, prevs, hash, s.matched, s.matched_prev).2;
    lemma_normal(raw);
    lemma_found_shelved(a, b, prevs, hash, s.matched, s.matched_prev);
    let sid = match found {
        Some(sid) => sid,
        None => b.sentences.len() as usize,
    };
    assert(d.sentences == if found is Some {
        b.sentences
    } else {
        b.sentences.push(SentenceView { hash_value: hash, value, words: Seq::empty() })
    });
    assert forall|h: Seq<char>, x: usize| #[trigger] placed_sentence(a, b)(h, x) implies
        placed_sentence(a, d)(h, x) by {
        if x >= a.sentences.len() {
            assert(d.sentences[x as int] == b.sentences[x as int]);
        }
    }
    assert(placed_sentence(a, d)(hash, sid));
    assert forall|i: int| a.paragraphs.len() <= i < d.paragraphs.len() implies all_filed(
        (#[trigger] d.paragraphs[i]).sentences,
        placed_sentence(a, d),
    ) by {
        let p = b.paragraphs[i];
        lemma_filed_weaker(p.sentences, placed_sentence(a, b), placed_sentence(a, d));
        if i == pid {
            lemma_filed_more(p.sentences, hash, sid, placed_sentence(a, d));
            assert(d.paragraphs[i].sentences == with_id(p.sentences, hash, sid));
        } else {
            assert(d.paragraphs[i] == p);
        }
    }
    assert forall|i: int| 0 <= i < a.paragraphs.len() implies #[trigger] d.paragraphs[i]
        == a.paragraphs[i] by {
        assert(d.paragraphs[i] == b.paragraphs[i]);
    }
    if found is None {
        assert(u.unmatched_curr =~= new_ids(m, d.sentences.len() as int));
    }
}

proof fn lemma_sentences_placed(
    a: ArticleView,
    c: ArticleView,
    s: SentenceState,
    pid: usize,
    prevs: Seq<usize>,
    raws: Seq<Seq<char>>,
    k: int,
)
    requires
        c.sentences_ht == a.sentences_ht,
        all_filed(a.sentences_ht, keyed_sentence(a)),
        are_sound(a, prevs),
        sentences_placed(a, c, s),
        a.paragraphs.len() <= pid < c.paragraphs.len(),
        0 <= k <= raws.len(),
        sentence_steps(s, pid, prevs, raws, k).article.sentences.len() <= usize::MAX,
    ensures
        sentences_placed(a, c, sentence_steps(s, pid, prevs, raws, k)),
    decreases raws.len() - k,
{
    if k < raws.len() {
        let r = sentence_step(s, pid, prevs, raws[k]);
        assert(r.article.paragraphs.len() == s.article.paragraphs.len());
        lemma_sentence_steps_grow(r, pid, prevs, raws, k + 1);
        if trimmed(raws[k]).len() > 0 {
            lemma_sentence_placed(a, c, s, pid, prevs, raws[k]);
        }
        lemma_sentences_placed(a, c, r, pid, prevs, raws, k + 1);
    }
}

proof fn lemma_sentence_level_placed(
    a: ArticleView,
    c: ArticleView,
    s: SentenceState,
    prevs: Seq<usize>,
    k: int,
)
    requires
        c.sentences_ht == a.sentences_ht,
        all_filed(a.sentences_ht, keyed_sentence(a)),
        are_sound(a, prevs),
        sentences_placed(a, c, s),
        a.paragraphs.len() <= c.paragraphs.len() <= usize::MAX,
        0 <= k <= c.paragraphs.len() - a.paragraphs.len(),
        sentence_paragraphs(
            s,
            new_ids(a.paragraphs.len() as int, c.paragraphs.len() as int),
            prevs,
            k,
        ).article.sentences.len() <= usize::MAX,
    ensures
        sentences_placed(
            a,
            c,
            sentence_paragraphs(
                s,
                new_ids(a.paragraphs.len() as int, c.paragraphs.len() as int),
                prevs,
                k,
            ),
        ),
    decreases c.paragraphs.len() - k,
{
    let n = a.paragraphs.len() as int;
    let news = new_ids(n, c.paragraphs.len() as int);
    if k < news.len() {
        let pid = news[k];
        let raws = sentences_of(s.article.paragraphs[pid as int].value);
        let r = sentence_steps(s, pid, prevs, raws, 0);
        lemma_sentence_steps_grow(s, pid, prevs, raws, 0);
        assert(ids_below(news, r.article.paragraphs.len() as int));
        lemma_sentence_paragraphs_grow(r, news, prevs, k + 1);
        lemma_sentences_placed(a, c, s, pid, prevs, raws, 0);
        lemma_sentence_level_placed(a, c, r, prevs, k + 1);
    }
}

proof fn lemma_left_sound(a: ArticleView, prev: RevisionView, m: MatchedView)
    requires
        all_filed(prev.paragraphs, listed_paragraph(a)),
    ensures
        are_sound(a, paragraphs_left(prev, m)),
{
    let all = ordered_ids(prev.paragraphs, prev.ordered_paragraphs);
    let left = paragraphs_left(prev, m);
    let such = |pid: usize|
        pid < a.paragraphs.len() && all_filed(
            a.paragraphs[pid as int].sentences,
            shelved_sentence(a),
        );
    assert forall|h: Seq<char>, pid: usize| #[trigger] listed_paragraph(a)(h, pid) implies (|
        h: Seq<char>,
        pid: usize,
    | such(pid))(h, pid) by {}
    lemma_filed_weaker(
        prev.paragraphs,
        listed_paragraph(a),
        |h: Seq<char>, pid: usize| such(pid),
    );
    lemma_ordered_such(prev.paragraphs, prev.ordered_paragraphs, 0, such);
    lemma_not_in_among(all, m.paragraphs);
    assert forall|i: int| 0 <= i < left.len() implies (#[trigger] left[i]) < a.paragraphs.len()
        && all_filed(a.paragraphs[left[i] as int].sentences, shelved_sentence(a)) by {
        let j = choose|j: int| 0 <= j < all.len() && all[j] == left[i];
        assert(such(all[j]));
    }
}

/// What the cascade leaves: the new sentences have the hashes of their texts, and the
/// new paragraphs hold what is found among all that are stored, or new sentences.
spec fn is_placed(a: ArticleView, b: ArticleView, r: RevisionView) -> bool {
    &&& forall|i: int|
        a.sentences.len() <= i < b.sentences.len() ==> is_keyed(
            b,
            (#[trigger] b.sentences[i]).hash_value,
            i as usize,
        )
    &&& forall|i: int|
        a.paragraphs.len() <= i < b.paragraphs.len() ==> all_filed(
            (#[trigger] b.paragraphs[i]).sentences,
            placed_sentence(a, b),
        )
    &&& all_filed(r.paragraphs, placed_paragraph(a, b))
}

proof fn lemma_cascade_places(
    a: ArticleView,
    text: Seq<char>,
    prev: RevisionView,
    curr: RevisionView,
)
    requires
        is_unique(a),
        is_distinct_revision(a, prev),
        is_catalogue(a),
        all_filed(prev.paragraphs, listed_paragraph(a)),
        curr.paragraphs.len() == 0,
        curr.ordered_paragraphs.len() == 0,
        has_room(a, text, prev, curr),
    ensures
        ({
            let (b, r, out) = authorship(a, text, prev, curr);
            &&& cascaded(a, b)
            &&& !out.vandalism ==> is_placed(a, b, r)
        }),
{
    let m = a.sentences.len() as int;
    let raws = paragraphs_of(text);
    let p0 = ParagraphState {
        article: a,
        revision: curr,
        matched: nothing_matched(),
        unmatched_curr: Seq::empty(),
        matched_prev: Seq::empty(),
    };
    let p = paragraph_level(a, text, prev, curr, nothing_matched());
    let c = p.article;
    let left = paragraphs_left(prev, p.matched);
    let (b, r, out) = authorship(a, text, prev, curr);
    lemma_cascade_once(a, text, prev, curr);
    lemma_paragraph_steps_grow(p0, prev, raws, 0);
    assert(curr.paragraphs =~= Seq::empty());
    lemma_paragraphs_placed(a, p0, prev, raws, 0);
    lemma_left_sound(a, prev, p.matched);
    let s0 = SentenceState {
        article: c,
        matched: p.matched,
        unmatched_curr: Seq::empty(),
        matched_prev: Seq::empty(),
        total: 0,
    };
    let news = new_ids(a.paragraphs.len() as int, c.paragraphs.len() as int);
    let u = sentence_pass(c, p.unmatched_curr, left, p.matched);
    crate::uniqueness::lemma_paragraph_level_once(a, text, prev, curr);
    assert(p.unmatched_curr == news);
    assert(ids_below(p.unmatched_curr, c.paragraphs.len() as int));
    lemma_sentence_paragraphs_grow(s0, p.unmatched_curr, left, 0);
    assert(new_ids(m, m) =~= Seq::<usize>::empty());
    assert(sentences_placed(a, c, s0));
    lemma_sentence_level_placed(a, c, s0, left, 0);
    let d = u.article;
    lemma_grow_trans(a, c, d);
    assert(cascaded(a, d));
    crate::uniqueness::lemma_sentences_begin(a, p);
    let pids = ordered_ids(p.revision.paragraphs, p.revision.ordered_paragraphs);
    crate::uniqueness::lemma_left_distinct(a, prev, p.matched);
    crate::uniqueness::lemma_sentence_level_once(a, c, pids, s0, left, 0);
    crate::uniqueness::lemma_sentences_linked(a, c, pids, u);
    if p.unmatched_curr.len() == 0 {
        assert(u == s0);
        assert(d == c);
    } else {
        let (z, q, s) = sentence_level(c, p.unmatched_curr, left, p.matched);
        if s.0.len() > 0 {
            assert(ids_below(left, d.paragraphs.len() as int)) by {
                assert forall|i: int| 0 <= i < left.len() implies (#[trigger] left[i])
                    < d.paragraphs.len() by {
                    assert(left[i] < a.paragraphs.len());
                }
            }
            lemma_left_in_below(d, left, 0, u.matched.sentences, Seq::empty());
            let suspect = p.revision.ordered_paragraphs.len() > 0;
            let adds = p.revision.original_adds as nat;
            assert(ids_below(s.0, d.sentences.len() as int));
            lemma_word_level_grows(d, s.0, s.1, suspect, p.revision.id, adds, q.tokens);
            lemma_grow_trans(a, d, b);
            lemma_word_level_fills(d, m, s.1, suspect, p.revision.id, adds, q.tokens);
            if !out.vandalism {
                lemma_keyed(a, d, b, m);
            }
        } else {
            assert(d.sentences.len() == m);
        }
        if !out.vandalism {
            lemma_placed_late(a, c, d, b, p.revision);
        }
    }
    if p.unmatched_curr.len() == 0 && !out.vandalism {
        assert(c.paragraphs.len() == a.paragraphs.len());
        assert(b.sentences == a.sentences);
    }
}

/// The new sentences have the hashes of their texts.
proof fn lemma_keyed(a: ArticleView, d: ArticleView, b: ArticleView, m: int)
    requires
        m == a.sentences.len(),
        m <= d.sentences.len() <= usize::MAX,
        is_filling(d, b, sentence_words(d, new_ids(m, d.sentences.len() as int)), m),
        forall|i: int|
            m <= i < d.sentences.len() ==> is_normal((#[trigger] d.sentences[i]).value)
                && d.sentences[i].hash_value == md5_hex(d.sentences[i].value),
    ensures
        forall|i: int|
            m <= i < b.sentences.len() ==> is_keyed(
                b,
                (#[trigger] b.sentences[i]).hash_value,
                i as usize,
            ),
{
    let n = d.sentences.len() as int;
    assert forall|i: int| m <= i < b.sentences.len() implies is_keyed(
        b,
        (#[trigger] b.sentences[i]).hash_value,
        i as usize,
    ) by {
        let v = d.sentences[i].value;
        lemma_assigned(d, m, n - m, i as usize);
        assert(new_ids(m, m + (n - m)) == new_ids(m, n));
        assert(b.sentences[i].hash_value == d.sentences[i].hash_value);
        let ws = b.sentences[i].words;
        assert(word_values(b, ws) == split_on(v, " "@));
        assert(word_values(b, ws).len() == ws.len());
        assert(is_normal(v));
    }
}

proof fn lemma_placed_late(
    a: ArticleView,
    c: ArticleView,
    d: ArticleView,
    b: ArticleView,
    r: RevisionView,
)
    requires
        cascaded(c, d),
        cascaded(d, b),
        b.paragraphs == d.paragraphs,
        c.paragraphs.len() == d.paragraphs.len(),
        d.sentences.len() == b.sentences.len(),
        all_filed(r.paragraphs, placed_paragraph(a, c)),
        forall|i: int|
            a.paragraphs.len() <= i < d.paragraphs.len() ==> all_filed(
                (#[trigger] d.paragraphs[i]).sentences,
                placed_sentence(a, d),
            ),
    ensures
        forall|i: int|
            a.paragraphs.len() <= i < b.paragraphs.len() ==> all_filed(
                (#[trigger] b.paragraphs[i]).sentences,
                placed_sentence(a, b),
            ),
        all_filed(r.paragraphs, placed_paragraph(a, b)),
{
    assert forall|h: Seq<char>, x: usize| #[trigger] placed_sentence(a, d)(h, x) implies
        placed_sentence(a, b)(h, x) by {
        if x >= a.sentences.len() {
            assert(b.sentences[x as int].hash_value == d.sentences[x as int].hash_value);
        }
    }
    assert forall|i: int| a.paragraphs.len() <= i < b.paragraphs.len() implies all_filed(
        (#[trigger] b.paragraphs[i]).sentences,
        placed_sentence(a, b),
    ) by {
        lemma_filed_weaker(
            d.paragraphs[i].sentences,
            placed_sentence(a, d),
            placed_sentence(a, b),
        );
    }
    assert forall|h: Seq<char>, pid: usize| #[trigger] placed_paragraph(a, c)(h, pid) implies
        placed_paragraph(a, b)(h, pid) by {
        if pid >= a.paragraphs.len() {
            assert(d.paragraphs[pid as int].hash_value == c.paragraphs[pid as int].hash_value);
        }
    }
    lemma_filed_weaker(r.paragraphs, placed_paragraph(a, c), placed_paragraph(a, b));
}

/// Filing sentences keeps what was found and makes them found.
proof fn lemma_sentences_shelve(
    c: ArticleView,
    sids: Seq<usize>,
    k: int,
    ok: spec_fn(Seq<char>, usize) -> bool,
)
    requires
        0 <= k,
        ids_below(sids, c.sentences.len() as int),
        all_filed(c.sentences_ht, ok),
        forall|i: int|
            0 <= i < sids.len() ==> ok(
                c.sentences[(#[trigger] sids[i]) as int].hash_value,
                sids[i],
            ),
    ensures
        ({
            let d = sentences_filed(c, sids, k);
            &&& all_filed(d.sentences_ht, ok)
            &&& forall|h: Seq<char>, x: usize|
                bucket(c.sentences_ht, h).contains(x) ==> #[trigger] bucket(
                    d.sentences_ht,
                    h,
                ).contains(x)
            &&& forall|i: int|
                k <= i < sids.len() ==> bucket(
                    d.sentences_ht,
                    c.sentences[(#[trigger] sids[i]) as int].hash_value,
                ).contains(sids[i])
        }),
    decreases sids.len() - k,
{
    if k < sids.len() {
        let s = c.sentences[sids[k] as int];
        let x = ArticleView {
            sentences_ht: with_id(c.sentences_ht, s.hash_value, sids[k]),
            ..c.set_sentence(sids[k] as int, SentenceView { value: Seq::empty(), ..s })
        };
        let d = sentences_filed(c, sids, k);
        assert(ok(s.hash_value, sids[k]));
        lemma_filed_more(c.sentences_ht, s.hash_value, sids[k], ok);
        assert forall|i: int| 0 <= i < sids.len() implies ok(
            x.sentences[(#[trigger] sids[i]) as int].hash_value,
            sids[i],
        ) by {
            assert(sids[i] < c.sentences.len());
            assert(x.sentences[sids[i] as int].hash_value
                == c.sentences[sids[i] as int].hash_value);
        }
        lemma_sentences_shelve(x, sids, k + 1, ok);
        assert forall|h: Seq<char>, y: usize| bucket(c.sentences_ht, h).contains(y) implies
            #[trigger] bucket(d.sentences_ht, h).contains(y) by {
            lemma_bucket_more(c.sentences_ht, s.hash_value, sids[k], h);
            let was = bucket(c.sentences_ht, h);
            let now = bucket(x.sentences_ht, h);
            let j = choose|j: int| 0 <= j < was.len() && was[j] == y;
            assert(now[j] == y);
            assert(now.contains(y));
        }
        assert forall|i: int| k <= i < sids.len() implies bucket(
            d.sentences_ht,
            c.sentences[(#[trigger] sids[i]) as int].hash_value,
        ).contains(sids[i]) by {
            assert(sids[i] < c.sentences.len());
            assert(x.sentences[sids[i] as int].hash_value
                == c.sentences[sids[i] as int].hash_value);
            if i == k {
                lemma_bucket_more(c.sentences_ht, s.hash_value, sids[k], s.hash_value);
                let now = bucket(x.sentences_ht, s.hash_value);
                assert(now[now.len() - 1] == sids[k]);
                assert(now.contains(sids[k]));
            }
        }
    }
}

/// Filing paragraphs keeps what was found and makes them found.
proof fn lemma_paragraphs_shelve(
    c: ArticleView,
    pids: Seq<usize>,
    k: int,
    ok: spec_fn(Seq<char>, usize) -> bool,
)
    requires
        0 <= k,
        ids_below(pids, c.paragraphs.len() as int),
        all_filed(c.paragraphs_ht, ok),
        forall|i: int|
            0 <= i < pids.len() ==> ok(
                c.paragraphs[(#[trigger] pids[i]) as int].hash_value,
                pids[i],
            ),
    ensures
        ({
            let d = paragraphs_filed(c, pids, k);
            &&& all_filed(d.paragraphs_ht, ok)
            &&& forall|h: Seq<char>, x: usize|
                bucket(c.paragraphs_ht, h).contains(x) ==> #[trigger] bucket(
                    d.paragraphs_ht,
                    h,
                ).contains(x)
            &&& forall|i: int|
                k <= i < pids.len() ==> bucket(
                    d.paragraphs_ht,
                    c.paragraphs[(#[trigger] pids[i]) as int].hash_value,
                ).contains(pids[i])
            &&& d.paragraphs.len() == c.paragraphs.len()
            &&& forall|i: int|
                0 <= i < c.paragraphs.len() ==> (#[trigger] d.paragraphs[i]).hash_value
                    == c.paragraphs[i].hash_value
        }),
    decreases pids.len() - k,
{
    if k < pids.len() {
        let p = c.paragraphs[pids[k] as int];
        let x = ArticleView {
            paragraphs_ht: with_id(c.paragraphs_ht, p.hash_value, pids[k]),
            ..c.set_paragraph(pids[k] as int, ParagraphView { value: Seq::empty(), ..p })
        };
        let d = paragraphs_filed(c, pids, k);
        assert(ok(p.hash_value, pids[k]));
        lemma_filed_more(c.paragraphs_ht, p.hash_value, pids[k], ok);
        assert forall|i: int| 0 <= i < pids.len() implies ok(
            x.paragraphs[(#[trigger] pids[i]) as int].hash_value,
            pids[i],
        ) by {
            assert(pids[i] < c.paragraphs.len());
            assert(x.paragraphs[pids[i] as int].hash_value
                == c.paragraphs[pids[i] as int].hash_value);
        }
        lemma_paragraphs_shelve(x, pids, k + 1, ok);
        assert forall|h: Seq<char>, y: usize| bucket(c.paragraphs_ht, h).contains(y) implies
            #[trigger] bucket(d.paragraphs_ht, h).contains(y) by {
            lemma_bucket_more(c.paragraphs_ht, p.hash_value, pids[k], h);
            let was = bucket(c.paragraphs_ht, h);
            let now = bucket(x.paragraphs_ht, h);
            let j = choose|j: int| 0 <= j < was.len() && was[j] == y;
            assert(now[j] == y);
            assert(now.contains(y));
        }
        assert forall|i: int| k <= i < pids.len() implies bucket(
            d.paragraphs_ht,
            c.paragraphs[(#[trigger] pids[i]) as int].hash_value,
        ).contains(pids[i]) by {
            assert(pids[i] < c.paragraphs.len());
            assert(x.paragraphs[pids[i] as int].hash_value
                == c.paragraphs[pids[i] as int].hash_value);
            if i == k {
                lemma_bucket_more(c.paragraphs_ht, p.hash_value, pids[k], p.hash_value);
                let now = bucket(x.paragraphs_ht, p.hash_value);
                assert(now[now.len() - 1] == pids[k]);
                assert(now.contains(pids[k]));
            }
        }
        assert forall|i: int| 0 <= i < c.paragraphs.len() implies (
        #[trigger] d.paragraphs[i]).hash_value == c.paragraphs[i].hash_value by {
            assert(x.paragraphs[i].hash_value == c.paragraphs[i].hash_value);
        }
    }
}

/// Whether the tokens and sentences of `a` read the same in `e`, and its paragraphs have
/// the same hashes.
spec fn reads_same(a: ArticleView, e: ArticleView) -> bool {
    &&& is_kept(a, e)
    &&& a.tokens.len() <= e.tokens.len()
    &&& forall|i: int| 0 <= i < a.tokens.len() ==> (#[trigger] e.tokens[i]).value == a.tokens[i].value
    &&& forall|i: int|
        0 <= i < a.paragraphs.len() ==> (#[trigger] e.paragraphs[i]).hash_value
            == a.paragraphs[i].hash_value
}

proof fn lemma_same_text(a: ArticleView, e: ArticleView, sid: usize)
    requires
        is_linked(a),
        reads_same(a, e),
        sid < a.sentences.len(),
    ensures
        word_values(e, e.sentences[sid as int].words) == word_values(
            a,
            a.sentences[sid as int].words,
        ),
        sentence_text(e, sid) == sentence_text(a, sid),
{
    let ws = a.sentences[sid as int].words;
    assert(e.sentences[sid as int].words == ws);
    assert(ids_below(ws, a.tokens.len() as int));
    assert(word_values(e, ws) =~= word_values(a, ws)) by {
        assert forall|k: int| 0 <= k < ws.len() implies e.tokens[(#[trigger] ws[k]) as int].value
            == a.tokens[ws[k] as int].value by {
            assert(ws[k] < a.tokens.len());
        }
    }
}

/// What was found is found.
proof fn lemma_still_listed(a: ArticleView, e: ArticleView)
    requires
        is_linked(a),
        reads_same(a, e),
        forall|h: Seq<char>, x: usize|
            bucket(a.sentences_ht, h).contains(x) ==> #[trigger] bucket(
                e.sentences_ht,
                h,
            ).contains(x),
        forall|h: Seq<char>, x: usize|
            bucket(a.paragraphs_ht, h).contains(x) ==> #[trigger] bucket(
                e.paragraphs_ht,
                h,
            ).contains(x),
    ensures
        forall|h: Seq<char>, x: usize| #[trigger] keyed_sentence(a)(h, x) ==> keyed_sentence(e)(h, x),
        forall|h: Seq<char>, x: usize| #[trigger]
            shelved_sentence(a)(h, x) ==> shelved_sentence(e)(h, x),
        forall|h: Seq<char>, x: usize| #[trigger]
            sound_paragraph(a)(h, x) ==> sound_paragraph(e)(h, x),
        forall|h: Seq<char>, x: usize| #[trigger]
            listed_paragraph(a)(h, x) ==> listed_paragraph(e)(h, x),
{
    assert forall|h: Seq<char>, x: usize| #[trigger] keyed_sentence(a)(h, x) implies
        keyed_sentence(e)(h, x) by {
        lemma_same_text(a, e, x);
    }
    assert forall|h: Seq<char>, x: usize| #[trigger] shelved_sentence(a)(h, x) implies
        shelved_sentence(e)(h, x) by {
        assert(keyed_sentence(a)(h, x));
        assert(keyed_sentence(e)(h, x));
        assert(bucket(e.sentences_ht, h).contains(x));
    }
    assert forall|h: Seq<char>, x: usize| #[trigger] sound_paragraph(a)(h, x) implies
        sound_paragraph(e)(h, x) by {
        assert(e.paragraphs[x as int].sentences == a.paragraphs[x as int].sentences);
        lemma_filed_weaker(
            a.paragraphs[x as int].sentences,
            shelved_sentence(a),
            shelved_sentence(e),
        );
    }
    assert forall|h: Seq<char>, x: usize| #[trigger] listed_paragraph(a)(h, x) implies
        listed_paragraph(e)(h, x) by {
        assert(sound_paragraph(a)(h, x));
        assert(sound_paragraph(e)(h, x));
        assert(bucket(e.paragraphs_ht, h).contains(x));
    }
}

/// Where nothing is stored.
proof fn lemma_still_catalogue(a: ArticleView, e: ArticleView)
    requires
        is_unique(a),
        is_catalogue(a),
        reads_same(a, e),
        e.sentences_ht == a.sentences_ht,
        e.paragraphs_ht == a.paragraphs_ht,
        e.revisions == a.revisions,
    ensures
        is_catalogue(e),
{
    lemma_still_listed(a, e);
    lemma_filed_weaker(a.sentences_ht, keyed_sentence(a), keyed_sentence(e));
    lemma_filed_weaker(a.paragraphs_ht, sound_paragraph(a), sound_paragraph(e));
    assert forall|id: u64| #[trigger] e.revisions.contains_key(id) implies all_filed(
        e.revisions[id].paragraphs,
        listed_paragraph(e),
    ) by {
        assert(a.revisions.contains_key(id));
        lemma_filed_weaker(a.revisions[id].paragraphs, listed_paragraph(a), listed_paragraph(e));
    }
}

/// What the analysis of a revision leaves that is stored.
proof fn lemma_stored_catalogue(
    a: ArticleView,
    b: ArticleView,
    r: RevisionView,
    e: ArticleView,
    rev: u64,
)
    requires
        is_unique(a),
        is_catalogue(a),
        is_linked(b),
        is_placed(a, b, r),
        reads_same(a, b),
        reads_same(b, e),
        reads_same(a, e),
        b.sentences.len() <= usize::MAX,
        b.paragraphs.len() <= usize::MAX,
        b.sentences.len() == e.sentences.len(),
        forall|h: Seq<char>, x: usize|
            bucket(a.sentences_ht, h).contains(x) ==> #[trigger] bucket(
                e.sentences_ht,
                h,
            ).contains(x),
        forall|h: Seq<char>, x: usize|
            bucket(a.paragraphs_ht, h).contains(x) ==> #[trigger] bucket(
                e.paragraphs_ht,
                h,
            ).contains(x),
        forall|i: int|
            a.sentences.len() <= i < b.sentences.len() ==> bucket(
                e.sentences_ht,
                (#[trigger] b.sentences[i]).hash_value,
            ).contains(i as usize),
        forall|i: int|
            a.paragraphs.len() <= i < b.paragraphs.len() ==> bucket(
                e.paragraphs_ht,
                (#[trigger] b.paragraphs[i]).hash_value,
            ).contains(i as usize),
        e.revisions == a.revisions.insert(rev, r),
    ensures
        forall|h: Seq<char>, x: usize| #[trigger]
            placed_sentence(a, b)(h, x) ==> shelved_sentence(e)(h, x),
        forall|i: int|
            a.sentences.len() <= i < b.sentences.len() ==> keyed_sentence(e)(
                (#[trigger] b.sentences[i]).hash_value,
                i as usize,
            ),
        forall|i: int|
            a.paragraphs.len() <= i < b.paragraphs.len() ==> sound_paragraph(e)(
                (#[trigger] b.paragraphs[i]).hash_value,
                i as usize,
            ),
        forall|id: u64| #[trigger]
            e.revisions.contains_key(id) ==> all_filed(
                e.revisions[id].paragraphs,
                listed_paragraph(e),
            ),
{
    lemma_still_listed(a, e);
    assert forall|i: int| a.sentences.len() <= i < b.sentences.len() implies keyed_sentence(e)(
        (#[trigger] b.sentences[i]).hash_value,
        i as usize,
    ) by {
        assert(is_keyed(b, b.sentences[i].hash_value, i as usize));
        lemma_same_text(b, e, i as usize);
        assert(e.sentences[i].words == b.sentences[i].words);
    }
    assert forall|h: Seq<char>, x: usize| #[trigger] placed_sentence(a, b)(h, x) implies
        shelved_sentence(e)(h, x) by {
        if x < a.sentences.len() {
            assert(shelved_sentence(a)(h, x));
        } else {
            assert(b.sentences[x as int].hash_value == h);
            assert(keyed_sentence(e)(h, x));
        }
    }
    assert forall|i: int| a.paragraphs.len() <= i < b.paragraphs.len() implies sound_paragraph(e)(
        (#[trigger] b.paragraphs[i]).hash_value,
        i as usize,
    ) by {
        assert(e.paragraphs[i].sentences == b.paragraphs[i].sentences);
        assert(e.paragraphs[i].hash_value == b.paragraphs[i].hash_value);
        lemma_filed_weaker(
            b.paragraphs[i].sentences,
            placed_sentence(a, b),
            shelved_sentence(e),
        );
    }
    assert forall|h: Seq<char>, x: usize| #[trigger] placed_paragraph(a, b)(h, x) implies
        listed_paragraph(e)(h, x) by {
        if x < a.paragraphs.len() {
            assert(listed_paragraph(a)(h, x));
        } else {
            assert(b.paragraphs[x as int].hash_value == h);
            assert(sound_paragraph(e)(h, x));
        }
    }
    lemma_filed_weaker(r.paragraphs, placed_paragraph(a, b), listed_paragraph(e));
    assert forall|id: u64| #[trigger] e.revisions.contains_key(id) implies all_filed(
        e.revisions[id].paragraphs,
        listed_paragraph(e),
    ) by {
        if id != rev {
            assert(a.revisions.contains_key(id));
            lemma_filed_weaker(
                a.revisions[id].paragraphs,
                listed_paragraph(a),
                listed_paragraph(e),
            );
        }
    }
}

proof fn lemma_reads_on(a: ArticleView, b: ArticleView, e: ArticleView)
    requires
        reads_same(a, b),
        reads_same(b, e),
    ensures
        reads_same(a, e),
{
    lemma_kept_trans(a, b, e);
    assert forall|i: int| 0 <= i < a.tokens.len() implies (#[trigger] e.tokens[i]).value
        == a.tokens[i].value by {
        assert(b.tokens[i].value == a.tokens[i].value);
    }
    assert forall|i: int| 0 <= i < a.paragraphs.len() implies (
    #[trigger] e.paragraphs[i]).hash_value == a.paragraphs[i].hash_value by {
        assert(b.paragraphs[i].hash_value == a.paragraphs[i].hash_value);
    }
}

proof fn lemma_cascade_reads(a: ArticleView, b: ArticleView)
    requires
        is_kept(a, b),
        cascaded(a, b),
    ensures
        reads_same(a, b),
{
    assert forall|i: int| 0 <= i < a.tokens.len() implies (#[trigger] b.tokens[i]).value
        == a.tokens[i].value by {
        assert(same_word(a.tokens[i], b.tokens[i]));
    }
}

/// The last good revision can be read again as well.
proof fn lemma_last_listed(a: ArticleView)
    requires
        is_unique(a),
        is_catalogue(a),
    ensures
        is_distinct_revision(a, last_good(a)),
        all_filed(last_good(a).paragraphs, listed_paragraph(a)),
{
    let prev = last_good(a);
    if !a.revisions.contains_key(a.last_good_rev_id) {
        let ids = ordered_ids(prev.paragraphs, prev.ordered_paragraphs);
        assert(ids =~= Seq::<usize>::empty());
        assert(revision_tokens(a, prev) =~= Seq::<usize>::empty());
    }
}

/// What becomes of a revision that is stored, between the cascade and the end.
proof fn lemma_filing(a: ArticleView, i: InputView)
    requires
        is_unique(a),
        is_catalogue(a),
        has_room_for(a, i),
        analysed(a, i).1 is Stored,
    ensures
        ({
            let e = analysed(a, i).0;
            let (b, r, out) = authorship(
                a,
                lowercase(i.text),
                last_good(a),
                blank_revision(i),
            );
            &&& !out.vandalism
            &&& e.revisions[i.rev_id] == r
            &&& is_placed(a, b, r)
            &&& is_linked(b)
            &&& reads_same(a, b)
            &&& reads_same(b, e)
            &&& b.sentences.len() == e.sentences.len() <= usize::MAX
            &&& revision_tokens(e, r) == revision_tokens(b, r)
            &&& is_catalogue(e)
        }),
{
    let prev = last_good(a);
    let rev = i.rev_id;
    let text = lowercase(i.text);
    let e = analysed(a, i).0;
    let (b, r, out) = authorship(a, text, prev, blank_revision(i));
    lemma_last_listed(a);
    lemma_cascade_once(a, text, prev, blank_revision(i));
    lemma_cascade_places(a, text, prev, blank_revision(i));
    lemma_cascade_reads(a, b);
    let pids = out.unmatched_paragraphs_curr;
    let sids = out.unmatched_sentences_curr;
    let c = recorded(b, out, prev.id, rev);
    let d = paragraphs_filed(c, pids, 0);
    let f = sentences_filed(d, sids, 0);
    let any = |h: Seq<char>, x: usize| true;
    crate::lifetimes::lemma_paragraphs_filed_kept(c, pids, 0);
    crate::lifetimes::lemma_sentences_filed_kept(d, sids, 0);
    assert(is_kept(b, c));
    lemma_kept_trans(b, c, d);
    lemma_kept_trans(b, d, f);
    lemma_paragraphs_shelve(c, pids, 0, any);
    lemma_sentences_shelve(d, sids, 0, any);
    assert(e.tokens == c.tokens);
    assert forall|k: int| 0 <= k < b.tokens.len() implies (#[trigger] e.tokens[k]).value
        == b.tokens[k].value by {}
    assert(reads_same(b, e));
    lemma_reads_on(a, b, e);
    lemma_revision_below(b, r);
    lemma_kept_paragraphs(b, e, ordered_ids(r.paragraphs, r.ordered_paragraphs));
    crate::uniqueness::lemma_sentences_filed_distinct(
        b,
        d,
        sids,
        0,
    );
    assert(e.sentences.len() == b.sentences.len());
    assert forall|k: int| a.sentences.len() <= k < b.sentences.len() implies bucket(
        e.sentences_ht,
        (#[trigger] b.sentences[k]).hash_value,
    ).contains(k as usize) by {
        assert(sids[k - a.sentences.len()] == k);
        assert(d.sentences[k] == b.sentences[k]);
    }
    assert forall|k: int| a.paragraphs.len() <= k < b.paragraphs.len() implies bucket(
        e.paragraphs_ht,
        (#[trigger] b.paragraphs[k]).hash_value,
    ).contains(k as usize) by {
        assert(pids[k - a.paragraphs.len()] == k);
        assert(c.paragraphs[k] == b.paragraphs[k]);
    }
    lemma_stored_catalogue(a, b, r, e, rev);
    lemma_still_listed(a, e);
    lemma_filed_weaker(a.sentences_ht, keyed_sentence(a), keyed_sentence(e));
    lemma_filed_weaker(a.paragraphs_ht, sound_paragraph(a), sound_paragraph(e));
    assert forall|k: int| 0 <= k < sids.len() implies keyed_sentence(e)(
        d.sentences[(#[trigger] sids[k]) as int].hash_value,
        sids[k],
    ) by {
        let x = a.sentences.len() + k;
        assert(sids[k] == x);
        assert(d.sentences[x] == b.sentences[x]);
    }
    lemma_sentences_shelve(d, sids, 0, keyed_sentence(e));
    assert forall|k: int| 0 <= k < pids.len() implies sound_paragraph(e)(
        c.paragraphs[(#[trigger] pids[k]) as int].hash_value,
        pids[k],
    ) by {
        let x = a.paragraphs.len() + k;
        assert(pids[k] == x);
        assert(c.paragraphs[x] == b.paragraphs[x]);
    }
    lemma_paragraphs_shelve(c, pids, 0, sound_paragraph(e));
}

/// Nothing is lost: where every paragraph and sentence of every stored revision can be
/// found before a revision, they can after it, and those of the revision as well.
pub proof fn everything_stays_found(a: ArticleView, i: InputView)
    requires
        is_unique(a),
        is_catalogue(a),
        has_room_for(a, i),
    ensures
        is_catalogue(analysed(a, i).0),
{
    let prev = last_good(a);
    let text = lowercase(i.text);
    let (e, outcome) = analysed(a, i);
    if outcome is Stored {
        lemma_filing(a, i);
    } else if a.spam_hashes.contains(content_hash(i)) || is_shrink(
        prev.length as int,
        i.text.len() as int,
        has_comment(i),
        i.minor,
    ) {
        assert(is_kept(a, e));
        lemma_still_catalogue(a, e);
    } else {
        let b = authorship(a, text, prev, blank_revision(i)).0;
        lemma_last_listed(a);
        lemma_cascade_once(a, text, prev, blank_revision(i));
        lemma_cascade_places(a, text, prev, blank_revision(i));
        lemma_cascade_reads(a, b);
        lemma_still_catalogue(a, b);
        assert(is_kept(b, e));
        lemma_reads_on(a, b, e);
        lemma_still_catalogue(a, e);
    }
}

/// A sentence of a stored revision is found under the hash of its text.
proof fn lemma_sentence_found(a: ArticleView, id: u64, x: usize)
    requires
        is_catalogue(a),
        a.revisions.contains_key(id),
        has_sentence(a, a.revisions[id], x),
    ensures
        is_shelved(a, md5_hex(sentence_text(a, x)), x),
{
    let r = a.revisions[id];
    let pid = choose|pid: usize| #[trigger]
        has_paragraph(r, pid) && ordered_ids(
            a.paragraphs[pid as int].sentences,
            a.paragraphs[pid as int].ordered_sentences,
        ).contains(x);
    lemma_paragraph_found(a, id, pid);
    let p = a.paragraphs[pid as int];
    let such = |sid: usize| is_shelved(a, md5_hex(sentence_text(a, sid)), sid);
    lemma_filed_weaker(
        p.sentences,
        shelved_sentence(a),
        |h: Seq<char>, sid: usize| such(sid),
    );
    lemma_ordered_such(p.sentences, p.ordered_sentences, 0, such);
    let ids = ordered_ids(p.sentences, p.ordered_sentences);
    let j = choose|j: int| 0 <= j < ids.len() && ids[j] == x;
    assert(such(ids[j]));
}

/// A paragraph of a stored revision is found under its hash.
proof fn lemma_paragraph_found(a: ArticleView, id: u64, pid: usize)
    requires
        is_catalogue(a),
        a.revisions.contains_key(id),
        has_paragraph(a.revisions[id], pid),
    ensures
        pid < a.paragraphs.len(),
        is_listed(a, a.paragraphs[pid as int].hash_value, pid),
{
    let r = a.revisions[id];
    let such = |q: usize|
        q < a.paragraphs.len() && is_listed(a, a.paragraphs[q as int].hash_value, q);
    lemma_filed_weaker(
        r.paragraphs,
        listed_paragraph(a),
        |h: Seq<char>, q: usize| such(q),
    );
    lemma_ordered_such(r.paragraphs, r.ordered_paragraphs, 0, such);
    let ids = ordered_ids(r.paragraphs, r.ordered_paragraphs);
    let j = choose|j: int| 0 <= j < ids.len() && ids[j] == pid;
    assert(such(ids[j]));
}

/// A sentence is not written anew where it can be read again: where a stored revision
/// has a sentence that the article did not hold, or one with a token that no revision
/// before held, every sentence of any earlier stored revision with the same words has a
/// token that the revision uses already. So a sentence that stood in any earlier
/// revision, and of which nothing is in use, is read with earlier tokens and adds none.
pub proof fn old_sentences_are_reused(
    a: ArticleView,
    i: InputView,
    sid: usize,
    earlier: u64,
    x: usize,
)
    requires
        is_unique(a),
        is_catalogue(a),
        has_room_for(a, i),
        analysed(a, i).1 is Stored,
        has_sentence(analysed(a, i).0, analysed(a, i).0.revisions[i.rev_id], sid),
        a.revisions.contains_key(earlier),
        has_sentence(a, a.revisions[earlier], x),
        ({
            let e = analysed(a, i).0;
            word_values(e, e.sentences[sid as int].words) == word_values(
                e,
                e.sentences[x as int].words,
            )
        }),
        !shares_token(analysed(a, i).0, x, analysed(a, i).0.revisions[i.rev_id]),
    ensures
        sid < a.sentences.len(),
        ({
            let ws = analysed(a, i).0.sentences[sid as int].words;
            &&& ws == a.sentences[sid as int].words
            &&& forall|k: int| 0 <= k < ws.len() ==> (#[trigger] ws[k]) < a.tokens.len()
        }),
{
    let e = analysed(a, i).0;
    let prev = last_good(a);
    let text = lowercase(i.text);
    let (b, r, out) = authorship(a, text, prev, blank_revision(i));
    lemma_filing(a, i);
    lemma_last_listed(a);
    lemma_cascade_seeks(a, text, prev, blank_revision(i));
    lemma_sentence_found(a, earlier, x);
    lemma_sentence_found(e, i.rev_id, sid);
    lemma_reads_on(a, b, e);
    lemma_same_text(a, e, x);
    assert(sid < e.sentences.len());
    if sid >= a.sentences.len() {
        let hash = b.sentences[sid as int].hash_value;
        assert(is_keyed(b, hash, sid));
        lemma_same_text(b, e, sid);
        assert(sentence_text(e, sid) == sentence_text(e, x));
        assert(hash == md5_hex(sentence_text(a, x)));
        let found = bucket(a.sentences_ht, hash);
        let j = choose|j: int| 0 <= j < found.len() && found[j] == x;
        assert(bucket(a.sentences_ht, b.sentences[sid as int].hash_value)[j] == x);
        let used = revision_tokens(b, r);
        assert(sentence_in_use(a, x, used.to_set()));
        let ws = a.sentences[x as int].words;
        let k = choose|k: int| 0 <= k < ws.len() && used.to_set().contains(#[trigger] ws[k]);
        assert(e.sentences[x as int].words == ws);
        assert(revision_tokens(e, r).contains(e.sentences[x as int].words[k]));
        assert(shares_token(e, x, r));
    }
    assert(e.sentences[sid as int].words == a.sentences[sid as int].words);
    assert(ids_below(a.sentences[sid as int].words, a.tokens.len() as int));
}

/// A paragraph is not written anew where it can be read again: where a stored revision
/// has a paragraph that the article did not hold, every paragraph of any earlier stored
/// revision with the same text, told by its digest, has a token that the revision uses
/// already.
pub proof fn old_paragraphs_are_reused(
    a: ArticleView,
    i: InputView,
    pid: usize,
    earlier: u64,
    x: usize,
)
    requires
        is_unique(a),
        is_catalogue(a),
        has_room_for(a, i),
        analysed(a, i).1 is Stored,
        has_paragraph(analysed(a, i).0.revisions[i.rev_id], pid),
        a.revisions.contains_key(earlier),
        has_paragraph(a.revisions[earlier], x),
        analysed(a, i).0.paragraphs[pid as int].hash_value == a.paragraphs[x as int].hash_value,
        paragraph_words(a, x).len() > 0,
        forall|k: int|
            0 <= k < paragraph_words(a, x).len() ==> !revision_tokens(
                analysed(a, i).0,
                analysed(a, i).0.revisions[i.rev_id],
            ).contains(#[trigger] paragraph_words(a, x)[k]),
    ensures
        pid < a.paragraphs.len(),
{
    let e = analysed(a, i).0;
    let prev = last_good(a);
    let text = lowercase(i.text);
    let (b, r, out) = authorship(a, text, prev, blank_revision(i));
    lemma_filing(a, i);
    lemma_last_listed(a);
    lemma_cascade_once(a, text, prev, blank_revision(i));
    lemma_cascade_seeks(a, text, prev, blank_revision(i));
    lemma_paragraph_found(a, earlier, x);
    lemma_revision_below(b, r);
    if pid >= a.paragraphs.len() {
        let ids = ordered_ids(r.paragraphs, r.ordered_paragraphs);
        let n = choose|n: int| 0 <= n < ids.len() && ids[n] == pid;
        assert(ids[n] < b.paragraphs.len());
        let hash = b.paragraphs[pid as int].hash_value;
        assert(e.paragraphs[pid as int].hash_value == hash);
        let found = bucket(a.paragraphs_ht, hash);
        let j = choose|j: int| 0 <= j < found.len() && found[j] == x;
        assert(bucket(a.paragraphs_ht, b.paragraphs[pid as int].hash_value)[j] == x);
        let used = revision_tokens(b, r);
        let ws = paragraph_words(a, x);
        let k = choose|k: int| 0 <= k < ws.len() && used.to_set().contains(#[trigger] ws[k]);
        assert(used.contains(ws[k]));
    }
}

} // verus!
