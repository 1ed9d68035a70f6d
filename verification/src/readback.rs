//! What a stored revision reads back as: its tokens spell its text.
use crate::buckets::{
    bucket, has_key, lemma_position, position, with_bucket, with_id, Entries,
};
use crate::cascade::{
    all_matched, any_matched, authorship, find_paragraph, find_prev, find_sentence, is_dense,
    lemma_find_prev, lemma_not_in_below, lemma_paragraph_steps_grow, lemma_scan_steps_grow,
    lemma_sentence_paragraphs_grow, lemma_sentence_steps_grow, lemma_word_add_grows,
    lemma_word_steps_grow, lemma_words_added_grow, normalized, not_in, nothing_matched,
    paragraph_level, paragraph_step, paragraph_steps, paragraph_words, paragraphs_left, recorded,
    scan_in_paragraphs, scan_paragraphs, scan_sentences, scan_steps, sentence_level,
    sentence_paragraphs, sentence_pass, sentence_step, sentence_steps, sentence_words,
    sentences_left, sentences_left_in, step_text, word_added, word_attached, word_level,
    word_step, word_steps, word_values, words_added, words_only, ParagraphState, SentenceState,
    WordContext, WordState,
};
use crate::matcher::count_of;
use crate::outside::{lowercase, md5_hex};
use crate::pipeline::{
    analysed, blank_revision, content_hash, has_comment, last_good, paragraphs_filed,
    sentences_filed, InputView,
};
use crate::spam::is_shrink;
use crate::structures::{
    entries_below, id_at, ids_below, ids_from, lemma_ordered_below, lemma_words_below, ordered_ids,
    revision_tokens, tokens_of_paragraphs, words_of,
    ArticleView, MatchedView, ParagraphView, RevisionView, SentenceView, WordView,
};
use crate::text::{split_on, trimmed, trimmed_begins_solid};
use crate::differ::transcript;
use crate::transcript::Step;
use crate::tokenize::{
    paragraph_tokens, paragraphs_of, sentence_round_trip, sentence_tokens, sentences_of,
    text_has_tokens,
};
use vstd::prelude::*;

verus! {

/// Whether `ok` holds of every id filed, under the hash it is filed under.
pub open spec fn all_filed(e: Entries, ok: spec_fn(Seq<char>, usize) -> bool) -> bool {
    forall|i: int, j: int|
        0 <= i < e.len() && 0 <= j < e[i].1.len() ==> ok(e[i].0, #[trigger] e[i].1[j])
}

pub(crate) proof fn lemma_filed_bucket(e: Entries, h: Seq<char>, ok: spec_fn(Seq<char>, usize) -> bool)
    requires
        all_filed(e, ok),
    ensures
        forall|j: int| 0 <= j < bucket(e, h).len() ==> ok(h, #[trigger] bucket(e, h)[j]),
{
    lemma_position(e, h);
    assert forall|j: int| 0 <= j < bucket(e, h).len() implies ok(
        h,
        #[trigger] bucket(e, h)[j],
    ) by {
        let i = position(e, h);
        assert(ok(e[i].0, e[i].1[j]));
    }
}

pub(crate) proof fn lemma_filed_more(
    e: Entries,
    h: Seq<char>,
    id: usize,
    ok: spec_fn(Seq<char>, usize) -> bool,
)
    requires
        all_filed(e, ok),
        ok(h, id),
    ensures
        all_filed(with_id(e, h, id), ok),
{
    lemma_position(e, h);
    lemma_filed_bucket(e, h, ok);
    let f = with_id(e, h, id);
    assert forall|i: int, j: int| 0 <= i < f.len() && 0 <= j < f[i].1.len() implies ok(
        f[i].0,
        #[trigger] f[i].1[j],
    ) by {
        if i < e.len() && i != position(e, h) {
            assert(f[i] == e[i]);
            assert(ok(e[i].0, e[i].1[j]));
        } else {
            let b = bucket(e, h);
            assert(f[i] == (h, b.push(id)));
            if j < b.len() {
                assert(ok(h, b[j]));
            }
        }
    }
}

pub(crate) proof fn lemma_filed_weaker(
    e: Entries,
    ok: spec_fn(Seq<char>, usize) -> bool,
    also: spec_fn(Seq<char>, usize) -> bool,
)
    requires
        all_filed(e, ok),
        forall|h: Seq<char>, id: usize| #[trigger] ok(h, id) ==> also(h, id),
    ensures
        all_filed(e, also),
{
    assert forall|i: int, j: int| 0 <= i < e.len() && 0 <= j < e[i].1.len() implies also(
        e[i].0,
        #[trigger] e[i].1[j],
    ) by {
        assert(ok(e[i].0, e[i].1[j]));
    }
}

/// What is filed under a hash once one more id is filed.
pub(crate) proof fn lemma_bucket_more(e: Entries, h: Seq<char>, id: usize, k: Seq<char>)
    ensures
        bucket(with_id(e, h, id), k) == if k == h {
            bucket(e, h).push(id)
        } else {
            bucket(e, k)
        },
{
    let v = bucket(e, h).push(id);
    lemma_bucket_set(e, h, v, k);
}

proof fn lemma_bucket_set(e: Entries, h: Seq<char>, v: Seq<usize>, k: Seq<char>)
    ensures
        bucket(with_bucket(e, h, v), k) == if k == h {
            v
        } else {
            bucket(e, k)
        },
    decreases e.len(),
{
    let f = with_bucket(e, h, v);
    lemma_position(e, h);
    lemma_position(e, k);
    if has_key(e, h) {
        if e.last().0 == h {
            assert(f.last() == (h, v));
            assert(f.drop_last() =~= e.drop_last());
            lemma_position(e.drop_last(), k);
        } else {
            let d = e.drop_last();
            assert(f.drop_last() =~= with_bucket(d, h, v));
            assert(f.last() == e.last());
            lemma_bucket_set(d, h, v, k);
            lemma_position(d, k);
            lemma_position(with_bucket(d, h, v), k);
        }
    } else {
        assert(f.drop_last() =~= e);
        assert(f.last() == (h, v));
    }
}

/// Whether as many ids are filed under each hash as the hash occurs in `ordered`.
pub open spec fn aligned(e: Entries, ordered: Seq<Seq<char>>) -> bool {
    forall|h: Seq<char>| count_of(ordered, h) == #[trigger] bucket(e, h).len()
}

pub(crate) proof fn lemma_count_push(s: Seq<Seq<char>>, x: Seq<char>, h: Seq<char>)
    ensures
        count_of(s.push(x), h) == count_of(s, h) + if x == h {
            1nat
        } else {
            0
        },
{
    assert(s.push(x).drop_last() =~= s);
}

pub(crate) proof fn lemma_count_before(s: Seq<Seq<char>>, i: int, k: int)
    requires
        0 <= i < k <= s.len(),
    ensures
        count_of(s.take(i), s[i]) < count_of(s.take(k), s[i]),
    decreases k - i,
{
    let t = s.take(k);
    assert(t.drop_last() =~= s.take(k - 1));
    assert(t.last() == s[k - 1]);
    if i < k - 1 {
        lemma_count_before(s, i, k - 1);
    }
}

proof fn lemma_ids_more(e: Entries, ordered: Seq<Seq<char>>, h: Seq<char>, id: usize, i: int)
    requires
        aligned(e, ordered),
        0 <= i <= ordered.len(),
    ensures
        ids_from(with_id(e, h, id), ordered.push(h), i) == ids_from(e, ordered, i).push(id),
    decreases ordered.len() - i,
{
    let f = with_id(e, h, id);
    let more = ordered.push(h);
    if i == ordered.len() {
        assert(more.take(i) =~= ordered);
        lemma_bucket_more(e, h, id, h);
        assert(id_at(f, more, i) == Some(id));
        assert(ids_from(f, more, i + 1) =~= Seq::<usize>::empty());
        assert(ids_from(e, ordered, i) =~= Seq::<usize>::empty());
        assert(ids_from(f, more, i) =~= ids_from(e, ordered, i).push(id));
    } else {
        assert(more.take(i) =~= ordered.take(i));
        assert(more[i] == ordered[i]);
        lemma_bucket_more(e, h, id, ordered[i]);
        lemma_count_before(ordered, i, ordered.len() as int);
        assert(ordered.take(ordered.len() as int) =~= ordered);
        assert(count_of(ordered, ordered[i]) == bucket(e, ordered[i]).len());
        assert(id_at(f, more, i) == id_at(e, ordered, i));
        lemma_ids_more(e, ordered, h, id, i + 1);
        assert(ids_from(f, more, i) =~= ids_from(e, ordered, i).push(id));
    }
}

/// One more id at the end of the order.
pub(crate) proof fn lemma_aligned_more(e: Entries, ordered: Seq<Seq<char>>, h: Seq<char>, id: usize)
    requires
        aligned(e, ordered),
    ensures
        aligned(with_id(e, h, id), ordered.push(h)),
        ordered_ids(with_id(e, h, id), ordered.push(h)) == ordered_ids(e, ordered).push(id),
{
    lemma_ids_more(e, ordered, h, id, 0);
    assert forall|k: Seq<char>| count_of(ordered.push(h), k) == #[trigger] bucket(
        with_id(e, h, id),
        k,
    ).len() by {
        lemma_count_push(ordered, h, k);
        lemma_bucket_more(e, h, id, k);
        assert(count_of(ordered, k) == bucket(e, k).len());
    }
}

/// Whether the digests of the texts `t` tell them apart.
pub open spec fn tells_apart(t: Set<Seq<char>>) -> bool {
    forall|x: Seq<char>, y: Seq<char>| #[trigger]
        t.contains(x) && #[trigger] t.contains(y) && md5_hex(x) == md5_hex(y) ==> x == y
}

/// Whether the sentence `sid` spells the text of `t` that has the digest `hash`.
pub open spec fn sentence_spells(
    a: ArticleView,
    t: Set<Seq<char>>,
    hash: Seq<char>,
    sid: usize,
) -> bool {
    &&& sid < a.sentences.len()
    &&& forall|v: Seq<char>| #[trigger]
        t.contains(v) && md5_hex(v) == hash ==> word_values(a, a.sentences[sid as int].words)
            == split_on(v, " "@)
}

/// [`sentence_spells`] for all that is filed.
pub open spec fn spelled_sentence(a: ArticleView, t: Set<Seq<char>>) -> spec_fn(
    Seq<char>,
    usize,
) -> bool {
    |hash: Seq<char>, sid: usize| sentence_spells(a, t, hash, sid)
}

/// The tokens of a paragraph in the order of its text.
pub open spec fn text_words(a: ArticleView, p: ParagraphView) -> Seq<usize> {
    words_of(a.sentences, ordered_ids(p.sentences, p.ordered_sentences))
}

/// Whether the paragraph `pid` spells the text of `t` that has the digest `hash`,
/// and its sentences spell theirs.
pub open spec fn paragraph_spells(
    a: ArticleView,
    t: Set<Seq<char>>,
    hash: Seq<char>,
    pid: usize,
) -> bool {
    &&& pid < a.paragraphs.len()
    &&& all_filed(a.paragraphs[pid as int].sentences, spelled_sentence(a, t))
    &&& forall|v: Seq<char>| #[trigger]
        t.contains(v) && md5_hex(v) == hash ==> word_values(
            a,
            text_words(a, a.paragraphs[pid as int]),
        ) == sentence_tokens(sentences_of(v))
}

/// [`paragraph_spells`] for all that is filed.
pub open spec fn spelled_paragraph(a: ArticleView, t: Set<Seq<char>>) -> spec_fn(
    Seq<char>,
    usize,
) -> bool {
    |hash: Seq<char>, pid: usize| paragraph_spells(a, t, hash, pid)
}

/// Whether all that is filed with the article, and all that its revisions are made
/// of, spells the texts of `t` that it stands for.
pub open spec fn spells(a: ArticleView, t: Set<Seq<char>>) -> bool {
    &&& all_filed(a.paragraphs_ht, spelled_paragraph(a, t))
    &&& all_filed(a.sentences_ht, spelled_sentence(a, t))
    &&& forall|id: u64| #[trigger]
        a.revisions.contains_key(id) ==> all_filed(
            a.revisions[id].paragraphs,
            spelled_paragraph(a, t),
        )
}

/// Whether all that the arenas of `a` hold reads the same in `b`.
pub open spec fn settled(a: ArticleView, b: ArticleView) -> bool {
    &&& a.tokens.len() <= b.tokens.len()
    &&& forall|i: int| 0 <= i < a.tokens.len() ==> (#[trigger] b.tokens[i]).value == a.tokens[i].value
    &&& a.sentences.len() <= b.sentences.len()
    &&& forall|i: int|
        0 <= i < a.sentences.len() ==> (#[trigger] b.sentences[i]).words == a.sentences[i].words
    &&& a.paragraphs.len() <= b.paragraphs.len()
    &&& forall|i: int|
        0 <= i < a.paragraphs.len() ==> (#[trigger] b.paragraphs[i]).sentences
            == a.paragraphs[i].sentences && b.paragraphs[i].ordered_sentences
            == a.paragraphs[i].ordered_sentences
}

/// Whether every token of a sentence and every sentence of a paragraph is in its
/// arena.
pub open spec fn is_linked(a: ArticleView) -> bool {
    &&& forall|i: int|
        0 <= i < a.sentences.len() ==> ids_below(
            (#[trigger] a.sentences[i]).words,
            a.tokens.len() as int,
        )
    &&& forall|i: int|
        0 <= i < a.paragraphs.len() ==> entries_below(
            (#[trigger] a.paragraphs[i]).sentences,
            a.sentences.len() as int,
        )
}

pub(crate) proof fn lemma_settled_values(a: ArticleView, b: ArticleView, ws: Seq<usize>)
    requires
        settled(a, b),
        ids_below(ws, a.tokens.len() as int),
    ensures
        word_values(b, ws) == word_values(a, ws),
{
    assert forall|i: int| 0 <= i < ws.len() implies word_values(b, ws)[i] == word_values(
        a,
        ws,
    )[i] by {
        assert(ws[i] < a.tokens.len());
    }
    assert(word_values(b, ws) =~= word_values(a, ws));
}

pub(crate) proof fn lemma_settled_words(a: ArticleView, b: ArticleView, sids: Seq<usize>)
    requires
        settled(a, b),
        ids_below(sids, a.sentences.len() as int),
    ensures
        words_of(b.sentences, sids) == words_of(a.sentences, sids),
    decreases sids.len(),
{
    if sids.len() > 0 {
        assert forall|i: int| 0 <= i < sids.drop_last().len() implies (#[trigger] sids.drop_last()[i])
            < a.sentences.len() by {
            assert(sids.drop_last()[i] == sids[i]);
        }
        lemma_settled_words(a, b, sids.drop_last());
        assert(sids[sids.len() - 1] < a.sentences.len());
    }
}

proof fn lemma_settled_sentence(
    a: ArticleView,
    b: ArticleView,
    t: Set<Seq<char>>,
    hash: Seq<char>,
    sid: usize,
)
    requires
        is_linked(a),
        settled(a, b),
        sentence_spells(a, t, hash, sid),
    ensures
        sentence_spells(b, t, hash, sid),
{
    let s = a.sentences[sid as int];
    assert(ids_below(s.words, a.tokens.len() as int));
    lemma_settled_values(a, b, s.words);
    assert(b.sentences[sid as int].words == s.words);
}

/// A paragraph that was there reads the same later on.
pub(crate) proof fn lemma_settled_text(a: ArticleView, b: ArticleView, pid: usize)
    requires
        is_linked(a),
        settled(a, b),
        pid < a.paragraphs.len(),
    ensures
        text_words(b, b.paragraphs[pid as int]) == text_words(a, a.paragraphs[pid as int]),
        word_values(b, text_words(b, b.paragraphs[pid as int])) == word_values(
            a,
            text_words(a, a.paragraphs[pid as int]),
        ),
{
    let p = a.paragraphs[pid as int];
    let sids = ordered_ids(p.sentences, p.ordered_sentences);
    assert(b.paragraphs[pid as int].sentences == p.sentences);
    lemma_ordered_below(p.sentences, p.ordered_sentences, 0, a.sentences.len() as int);
    lemma_settled_words(a, b, sids);
    lemma_words_below(a.sentences, sids, a.tokens.len() as int);
    lemma_settled_values(a, b, words_of(a.sentences, sids));
}

proof fn lemma_settled_paragraph(
    a: ArticleView,
    b: ArticleView,
    t: Set<Seq<char>>,
    hash: Seq<char>,
    pid: usize,
)
    requires
        is_linked(a),
        settled(a, b),
        paragraph_spells(a, t, hash, pid),
    ensures
        paragraph_spells(b, t, hash, pid),
{
    let p = a.paragraphs[pid as int];
    assert(b.paragraphs[pid as int].sentences == p.sentences);
    lemma_settled_text(a, b, pid);
    assert forall|h: Seq<char>, sid: usize| #[trigger]
        spelled_sentence(a, t)(h, sid) implies spelled_sentence(b, t)(h, sid) by {
        lemma_settled_sentence(a, b, t, h, sid);
    }
    lemma_filed_weaker(p.sentences, spelled_sentence(a, t), spelled_sentence(b, t));
}

/// What was filed still spells what it stands for later on.
proof fn lemma_settled_filed(a: ArticleView, b: ArticleView, t: Set<Seq<char>>)
    requires
        is_linked(a),
        settled(a, b),
        spells(a, t),
    ensures
        all_filed(a.paragraphs_ht, spelled_paragraph(b, t)),
        all_filed(a.sentences_ht, spelled_sentence(b, t)),
        forall|id: u64| #[trigger]
            a.revisions.contains_key(id) ==> all_filed(
                a.revisions[id].paragraphs,
                spelled_paragraph(b, t),
            ),
{
    assert forall|h: Seq<char>, sid: usize| #[trigger]
        spelled_sentence(a, t)(h, sid) implies spelled_sentence(b, t)(h, sid) by {
        lemma_settled_sentence(a, b, t, h, sid);
    }
    assert forall|h: Seq<char>, pid: usize| #[trigger]
        spelled_paragraph(a, t)(h, pid) implies spelled_paragraph(b, t)(h, pid) by {
        lemma_settled_paragraph(a, b, t, h, pid);
    }
    lemma_filed_weaker(a.paragraphs_ht, spelled_paragraph(a, t), spelled_paragraph(b, t));
    lemma_filed_weaker(a.sentences_ht, spelled_sentence(a, t), spelled_sentence(b, t));
    assert forall|id: u64| #[trigger] a.revisions.contains_key(id) implies all_filed(
        a.revisions[id].paragraphs,
        spelled_paragraph(b, t),
    ) by {
        lemma_filed_weaker(
            a.revisions[id].paragraphs,
            spelled_paragraph(a, t),
            spelled_paragraph(b, t),
        );
    }
}

/// The paragraphs of a text as they are filed: trimmed, blank ones left out.
pub open spec fn solid_paragraphs(raws: Seq<Seq<char>>) -> Seq<Seq<char>>
    decreases raws.len(),
{
    if raws.len() == 0 {
        Seq::empty()
    } else if trimmed(raws.last()).len() == 0 {
        solid_paragraphs(raws.drop_last())
    } else {
        solid_paragraphs(raws.drop_last()).push(trimmed(raws.last()))
    }
}

/// The ids from `from` up to `to`.
pub(crate) open spec fn new_ids(from: int, to: int) -> Seq<usize> {
    Seq::new((to - from) as nat, |i: int| (from + i) as usize)
}

/// Whether `t` holds the paragraph `v` and its sentences as they are filed.
pub open spec fn holds_paragraph(t: Set<Seq<char>>, v: Seq<char>) -> bool {
    &&& t.contains(v)
    &&& forall|j: int|
        0 <= j < sentences_of(v).len() && trimmed(#[trigger] sentences_of(v)[j]).len() > 0
            ==> t.contains(normalized(trimmed(sentences_of(v)[j])))
}

/// Whether `t` holds all that is filed of a text: its paragraphs and their
/// sentences.
pub open spec fn holds_text(t: Set<Seq<char>>, text: Seq<char>) -> bool {
    forall|i: int|
        0 <= i < paragraphs_of(text).len() && trimmed(#[trigger] paragraphs_of(text)[i]).len() > 0
            ==> holds_paragraph(t, trimmed(paragraphs_of(text)[i]))
}

/// Whether `v` is filed of a text: as a paragraph of it, or as a sentence.
pub open spec fn is_filed_of(text: Seq<char>, v: Seq<char>) -> bool {
    exists|i: int|
        0 <= i < paragraphs_of(text).len() && trimmed(#[trigger] paragraphs_of(text)[i]).len() > 0
            && is_filed_of_paragraph(trimmed(paragraphs_of(text)[i]), v)
}

/// Whether `v` is filed of the paragraph `p`: as itself, or as a sentence.
pub open spec fn is_filed_of_paragraph(p: Seq<char>, v: Seq<char>) -> bool {
    ||| v == p
    ||| exists|j: int|
        0 <= j < sentences_of(p).len() && trimmed(#[trigger] sentences_of(p)[j]).len() > 0 && v
            == normalized(trimmed(sentences_of(p)[j]))
}

/// A set that holds what is filed of a text holds the text.
pub(crate) proof fn lemma_holds_text(t: Set<Seq<char>>, text: Seq<char>)
    requires
        forall|v: Seq<char>| is_filed_of(text, v) ==> #[trigger] t.contains(v),
    ensures
        holds_text(t, text),
{
    assert forall|i: int|
        0 <= i < paragraphs_of(text).len() && trimmed(#[trigger] paragraphs_of(text)[i]).len()
            > 0 implies holds_paragraph(t, trimmed(paragraphs_of(text)[i])) by {
        let p = trimmed(paragraphs_of(text)[i]);
        assert(is_filed_of_paragraph(p, p));
        assert(is_filed_of(text, p));
        assert(t.contains(p));
        assert forall|j: int|
            0 <= j < sentences_of(p).len() && trimmed(#[trigger] sentences_of(p)[j]).len()
                > 0 implies t.contains(normalized(trimmed(sentences_of(p)[j]))) by {
            let v = normalized(trimmed(sentences_of(p)[j]));
            assert(is_filed_of_paragraph(p, v));
            assert(is_filed_of(text, v));
        }
    }
}

/// A paragraph with the text it is to be filled with.
spec fn is_blank_paragraph(t: Set<Seq<char>>, p: ParagraphView) -> bool {
    &&& p.sentences.len() == 0
    &&& p.ordered_sentences.len() == 0
    &&& holds_paragraph(t, p.value)
    &&& p.hash_value == md5_hex(p.value)
}

/// Whether the paragraph `pid` of `b` may be filed under `hash`: one of `a` spells
/// what the hash stands for, a new one has the hash.
spec fn placed_paragraph(a: ArticleView, t: Set<Seq<char>>, b: ArticleView) -> spec_fn(
    Seq<char>,
    usize,
) -> bool {
    |hash: Seq<char>, pid: usize|
        if pid < a.paragraphs.len() {
            paragraph_spells(a, t, hash, pid)
        } else {
            pid < b.paragraphs.len() && b.paragraphs[pid as int].hash_value == hash
        }
}

/// Whether the paragraph `pid` of `b` stands for the text `v`.
spec fn stands_for(a: ArticleView, b: ArticleView, pid: usize, v: Seq<char>) -> bool {
    if pid < a.paragraphs.len() {
        word_values(a, text_words(a, a.paragraphs[pid as int])) == sentence_tokens(
            sentences_of(v),
        )
    } else {
        pid < b.paragraphs.len() && b.paragraphs[pid as int].value == v
    }
}

/// What the paragraph level keeps: `vs` are the paragraphs passed.
spec fn paragraphs_passed(
    a: ArticleView,
    t: Set<Seq<char>>,
    s: ParagraphState,
    vs: Seq<Seq<char>>,
) -> bool {
    let b = s.article;
    let pids = ordered_ids(s.revision.paragraphs, s.revision.ordered_paragraphs);
    &&& b == (ArticleView { paragraphs: b.paragraphs, ..a })
    &&& a.paragraphs.len() <= b.paragraphs.len() <= usize::MAX
    &&& forall|i: int|
        0 <= i < a.paragraphs.len() ==> #[trigger] b.paragraphs[i] == a.paragraphs[i]
    &&& forall|i: int|
        a.paragraphs.len() <= i < b.paragraphs.len() ==> is_blank_paragraph(
            t,
            #[trigger] b.paragraphs[i],
        )
    &&& s.unmatched_curr == new_ids(a.paragraphs.len() as int, b.paragraphs.len() as int)
    &&& aligned(s.revision.paragraphs, s.revision.ordered_paragraphs)
    &&& all_filed(s.revision.paragraphs, placed_paragraph(a, t, b))
    &&& pids.len() == vs.len()
    &&& forall|i: int| 0 <= i < vs.len() ==> stands_for(a, b, #[trigger] pids[i], vs[i])
}

pub(crate) proof fn lemma_scan_finds(
    a: ArticleView,
    ids: Seq<usize>,
    k: int,
    m: MatchedView,
    past: Seq<usize>,
)
    requires
        0 <= k,
    ensures
        scan_paragraphs(a, ids, k, m, past).2 is Some ==> ids.contains(
            scan_paragraphs(a, ids, k, m, past).2->0,
        ),
    decreases ids.len() - k,
{
    if k < ids.len() {
        let pid = ids[k];
        let ws = paragraph_words(a, pid);
        if m.paragraphs.contains(pid) {
            lemma_scan_finds(a, ids, k + 1, m, past);
        } else if !any_matched(ws, m.tokens) {
        } else if all_matched(ws, m.tokens) {
            lemma_scan_finds(
                a,
                ids,
                k + 1,
                MatchedView { paragraphs: m.paragraphs.insert(pid), ..m },
                past.push(pid),
            );
        } else {
            lemma_scan_finds(a, ids, k + 1, m, past);
        }
    }
}

proof fn lemma_found_paragraph(
    a: ArticleView,
    t: Set<Seq<char>>,
    b: ArticleView,
    prev: RevisionView,
    hash: Seq<char>,
    m: MatchedView,
    past: Seq<usize>,
)
    requires
        spells(a, t),
        b.paragraphs_ht == a.paragraphs_ht,
        all_filed(prev.paragraphs, spelled_paragraph(a, t)),
    ensures
        find_paragraph(b, prev, hash, m, past).2 is Some ==> paragraph_spells(
            a,
            t,
            hash,
            find_paragraph(b, prev, hash, m, past).2->0,
        ),
{
    let near = bucket(prev.paragraphs, hash);
    let far = bucket(b.paragraphs_ht, hash);
    let first = scan_paragraphs(b, near, 0, m, past);
    lemma_scan_finds(b, near, 0, m, past);
    lemma_scan_finds(b, far, 0, first.0, first.1);
    lemma_filed_bucket(prev.paragraphs, hash, spelled_paragraph(a, t));
    lemma_filed_bucket(a.paragraphs_ht, hash, spelled_paragraph(a, t));
    let r = find_paragraph(b, prev, hash, m, past).2;
    if r is Some {
        if first.2 is Some {
            let j = choose|j: int| 0 <= j < near.len() && near[j] == r->0;
            assert(spelled_paragraph(a, t)(hash, near[j]));
        } else {
            let j = choose|j: int| 0 <= j < far.len() && far[j] == r->0;
            assert(spelled_paragraph(a, t)(hash, far[j]));
        }
    }
}

proof fn lemma_paragraph_passes(
    a: ArticleView,
    t: Set<Seq<char>>,
    s: ParagraphState,
    prev: RevisionView,
    raw: Seq<char>,
    vs: Seq<Seq<char>>,
)
    requires
        spells(a, t),
        all_filed(prev.paragraphs, spelled_paragraph(a, t)),
        paragraphs_passed(a, t, s, vs),
        trimmed(raw).len() > 0,
        holds_paragraph(t, trimmed(raw)),
        paragraph_step(s, prev, raw).article.paragraphs.len() <= usize::MAX,
    ensures
        paragraphs_passed(a, t, paragraph_step(s, prev, raw), vs.push(trimmed(raw))),
{
    let v = trimmed(raw);
    let hash = md5_hex(v);
    let r = s.revision;
    let u = paragraph_step(s, prev, raw);
    let (m, past, found) = find_paragraph(s.article, prev, hash, s.matched, s.matched_prev);
    let pids = ordered_ids(r.paragraphs, r.ordered_paragraphs);
    let n = a.paragraphs.len() as int;
    lemma_found_paragraph(a, t, s.article, prev, hash, s.matched, s.matched_prev);
    let pid = match found {
        Some(pid) => pid,
        None => s.article.paragraphs.len() as usize,
    };
    lemma_aligned_more(r.paragraphs, r.ordered_paragraphs, hash, pid);
    assert forall|h: Seq<char>, id: usize| #[trigger]
        placed_paragraph(a, t, s.article)(h, id) implies placed_paragraph(a, t, u.article)(
        h,
        id,
    ) by {
        if id >= n {
            assert(u.article.paragraphs[id as int] == s.article.paragraphs[id as int]);
        }
    }
    lemma_filed_weaker(
        r.paragraphs,
        placed_paragraph(a, t, s.article),
        placed_paragraph(a, t, u.article),
    );
    assert(placed_paragraph(a, t, u.article)(hash, pid));
    lemma_filed_more(r.paragraphs, hash, pid, placed_paragraph(a, t, u.article));
    let more = ordered_ids(u.revision.paragraphs, u.revision.ordered_paragraphs);
    assert(more == pids.push(pid));
    let ws = vs.push(v);
    assert forall|i: int| 0 <= i < ws.len() implies stands_for(
        a,
        u.article,
        #[trigger] more[i],
        ws[i],
    ) by {
        if i < vs.len() {
            assert(stands_for(a, s.article, pids[i], vs[i]));
            if pids[i] >= n {
                assert(u.article.paragraphs[pids[i] as int]
                    == s.article.paragraphs[pids[i] as int]);
            }
        }
    }
    if found is None {
        let b = s.article;
        let c = u.article;
        assert forall|i: int| n <= i < c.paragraphs.len() implies is_blank_paragraph(
            t,
            #[trigger] c.paragraphs[i],
        ) by {
            if i < b.paragraphs.len() {
                assert(c.paragraphs[i] == b.paragraphs[i]);
            }
        }
        assert forall|i: int| 0 <= i < n implies #[trigger] c.paragraphs[i] == a.paragraphs[i] by {
            assert(c.paragraphs[i] == b.paragraphs[i]);
        }
        assert(u.unmatched_curr =~= new_ids(n, c.paragraphs.len() as int));
    }
}

proof fn lemma_paragraphs_pass(
    a: ArticleView,
    t: Set<Seq<char>>,
    s: ParagraphState,
    prev: RevisionView,
    raws: Seq<Seq<char>>,
    k: int,
)
    requires
        spells(a, t),
        all_filed(prev.paragraphs, spelled_paragraph(a, t)),
        0 <= k <= raws.len(),
        paragraphs_passed(a, t, s, solid_paragraphs(raws.take(k))),
        forall|i: int|
            0 <= i < raws.len() && trimmed(#[trigger] raws[i]).len() > 0 ==> holds_paragraph(
                t,
                trimmed(raws[i]),
            ),
        paragraph_steps(s, prev, raws, k).article.paragraphs.len() <= usize::MAX,
    ensures
        paragraphs_passed(a, t, paragraph_steps(s, prev, raws, k), solid_paragraphs(raws)),
    decreases raws.len() - k,
{
    if k < raws.len() {
        let u = paragraph_step(s, prev, raws[k]);
        lemma_paragraph_steps_grow(u, prev, raws, k + 1);
        assert(raws.take(k + 1).drop_last() =~= raws.take(k));
        assert(raws.take(k + 1).last() == raws[k]);
        if trimmed(raws[k]).len() > 0 {
            lemma_paragraph_passes(
                a,
                t,
                s,
                prev,
                raws[k],
                solid_paragraphs(raws.take(k)),
            );
        }
        lemma_paragraphs_pass(a, t, u, prev, raws, k + 1);
    } else {
        assert(raws.take(k) =~= raws);
    }
}

/// The sentences of a paragraph as they are filed: their tokens joined by spaces,
/// blank ones left out.
pub open spec fn solid_sentences(raws: Seq<Seq<char>>) -> Seq<Seq<char>>
    decreases raws.len(),
{
    if raws.len() == 0 {
        Seq::empty()
    } else if trimmed(raws.last()).len() == 0 {
        solid_sentences(raws.drop_last())
    } else {
        solid_sentences(raws.drop_last()).push(normalized(trimmed(raws.last())))
    }
}

/// A sentence with the text it is to be filled with.
spec fn is_blank_sentence(t: Set<Seq<char>>, s: SentenceView) -> bool {
    &&& s.words.len() == 0
    &&& t.contains(s.value)
    &&& s.hash_value == md5_hex(s.value)
}

/// Whether the sentence `sid` of `b` may be filed under `hash`: one of `a` spells
/// what the hash stands for, a new one has the hash.
spec fn placed_sentence(a: ArticleView, t: Set<Seq<char>>, b: ArticleView) -> spec_fn(
    Seq<char>,
    usize,
) -> bool {
    |hash: Seq<char>, sid: usize|
        if sid < a.sentences.len() {
            sentence_spells(a, t, hash, sid)
        } else {
            sid < b.sentences.len() && b.sentences[sid as int].hash_value == hash
        }
}

/// Whether the sentence `sid` of `b` stands for the text `v`.
spec fn sentence_stands_for(a: ArticleView, b: ArticleView, sid: usize, v: Seq<char>) -> bool {
    if sid < a.sentences.len() {
        word_values(a, a.sentences[sid as int].words) == split_on(v, " "@)
    } else {
        sid < b.sentences.len() && b.sentences[sid as int].value == v
    }
}

/// Whether the sentences of the paragraph `p` stand for the texts `vs` in order.
spec fn is_written(
    a: ArticleView,
    t: Set<Seq<char>>,
    b: ArticleView,
    p: ParagraphView,
    vs: Seq<Seq<char>>,
) -> bool {
    let sids = ordered_ids(p.sentences, p.ordered_sentences);
    &&& aligned(p.sentences, p.ordered_sentences)
    &&& all_filed(p.sentences, placed_sentence(a, t, b))
    &&& sids.len() == vs.len()
    &&& forall|i: int| 0 <= i < vs.len() ==> sentence_stands_for(a, b, #[trigger] sids[i], vs[i])
}

proof fn lemma_written_later(
    a: ArticleView,
    t: Set<Seq<char>>,
    b: ArticleView,
    c: ArticleView,
    p: ParagraphView,
    vs: Seq<Seq<char>>,
)
    requires
        is_written(a, t, b, p, vs),
        b.sentences.len() <= c.sentences.len(),
        forall|i: int|
            0 <= i < b.sentences.len() ==> (#[trigger] c.sentences[i]).value
                == b.sentences[i].value && c.sentences[i].hash_value == b.sentences[i].hash_value,
    ensures
        is_written(a, t, c, p, vs),
{
    assert forall|h: Seq<char>, sid: usize| #[trigger]
        placed_sentence(a, t, b)(h, sid) implies placed_sentence(a, t, c)(h, sid) by {
        if sid >= a.sentences.len() {
            assert(c.sentences[sid as int].hash_value == b.sentences[sid as int].hash_value);
        }
    }
    lemma_filed_weaker(p.sentences, placed_sentence(a, t, b), placed_sentence(a, t, c));
    let sids = ordered_ids(p.sentences, p.ordered_sentences);
    assert forall|i: int| 0 <= i < vs.len() implies sentence_stands_for(
        a,
        c,
        #[trigger] sids[i],
        vs[i],
    ) by {
        assert(sentence_stands_for(a, b, sids[i], vs[i]));
        if sids[i] >= a.sentences.len() {
            assert(c.sentences[sids[i] as int].value == b.sentences[sids[i] as int].value);
        }
    }
}

/// What the sentence level keeps; `c` is the article before it.
spec fn sentences_kept(
    a: ArticleView,
    t: Set<Seq<char>>,
    c: ArticleView,
    s: SentenceState,
) -> bool {
    let b = s.article;
    &&& b == (ArticleView { paragraphs: b.paragraphs, sentences: b.sentences, ..c })
    &&& a.sentences.len() <= b.sentences.len() <= usize::MAX
    &&& forall|i: int| 0 <= i < a.sentences.len() ==> #[trigger] b.sentences[i] == a.sentences[i]
    &&& forall|i: int|
        a.sentences.len() <= i < b.sentences.len() ==> is_blank_sentence(
            t,
            #[trigger] b.sentences[i],
        )
    &&& s.unmatched_curr == new_ids(a.sentences.len() as int, b.sentences.len() as int)
    &&& b.paragraphs.len() == c.paragraphs.len()
    &&& forall|i: int|
        0 <= i < a.paragraphs.len() ==> #[trigger] b.paragraphs[i] == a.paragraphs[i]
    &&& forall|i: int|
        0 <= i < c.paragraphs.len() ==> (#[trigger] b.paragraphs[i]).value
            == c.paragraphs[i].value && b.paragraphs[i].hash_value == c.paragraphs[i].hash_value
}

/// Whether the paragraphs `pids` are of `a` and their sentences spell what they
/// stand for.
spec fn are_spelled(a: ArticleView, t: Set<Seq<char>>, pids: Seq<usize>) -> bool {
    forall|i: int|
        0 <= i < pids.len() ==> (#[trigger] pids[i]) < a.paragraphs.len() && all_filed(
            a.paragraphs[pids[i] as int].sentences,
            spelled_sentence(a, t),
        )
}

proof fn lemma_scan_finds_sentence(
    a: ArticleView,
    ids: Seq<usize>,
    k: int,
    m: MatchedView,
    past: Seq<usize>,
)
    requires
        0 <= k,
    ensures
        scan_sentences(a, ids, k, m, past).2 is Some ==> ids.contains(
            scan_sentences(a, ids, k, m, past).2->0,
        ),
    decreases ids.len() - k,
{
    if k < ids.len() {
        let sid = ids[k];
        let ws = a.sentences[sid as int].words;
        if m.sentences.contains(sid) {
            lemma_scan_finds_sentence(a, ids, k + 1, m, past);
        } else if !any_matched(ws, m.tokens) {
        } else if all_matched(ws, m.tokens) {
            lemma_scan_finds_sentence(
                a,
                ids,
                k + 1,
                MatchedView { sentences: m.sentences.insert(sid), ..m },
                past.push(sid),
            );
        } else {
            lemma_scan_finds_sentence(a, ids, k + 1, m, past);
        }
    }
}

proof fn lemma_found_in_bucket(
    a: ArticleView,
    t: Set<Seq<char>>,
    b: ArticleView,
    e: Entries,
    hash: Seq<char>,
    m: MatchedView,
    past: Seq<usize>,
)
    requires
        all_filed(e, spelled_sentence(a, t)),
    ensures
        ({
            let r = scan_sentences(b, bucket(e, hash), 0, m, past).2;
            r is Some ==> sentence_spells(a, t, hash, r->0)
        }),
{
    let ids = bucket(e, hash);
    lemma_scan_finds_sentence(b, ids, 0, m, past);
    lemma_filed_bucket(e, hash, spelled_sentence(a, t));
    let r = scan_sentences(b, ids, 0, m, past).2;
    if r is Some {
        let j = choose|j: int| 0 <= j < ids.len() && ids[j] == r->0;
        assert(spelled_sentence(a, t)(hash, ids[j]));
    }
}

proof fn lemma_found_in_paragraphs(
    a: ArticleView,
    t: Set<Seq<char>>,
    b: ArticleView,
    pids: Seq<usize>,
    k: int,
    hash: Seq<char>,
    m: MatchedView,
    past: Seq<usize>,
)
    requires
        0 <= k,
        are_spelled(a, t, pids),
        forall|i: int|
            0 <= i < a.paragraphs.len() ==> #[trigger] b.paragraphs[i] == a.paragraphs[i],
    ensures
        ({
            let r = scan_in_paragraphs(b, pids, k, hash, m, past).2;
            r is Some ==> sentence_spells(a, t, hash, r->0)
        }),
    decreases pids.len() - k,
{
    if k < pids.len() {
        let p = a.paragraphs[pids[k] as int];
        assert(b.paragraphs[pids[k] as int] == p);
        lemma_found_in_bucket(a, t, b, p.sentences, hash, m, past);
        let here = scan_sentences(b, bucket(p.sentences, hash), 0, m, past);
        if here.2 is None {
            lemma_found_in_paragraphs(a, t, b, pids, k + 1, hash, here.0, here.1);
        }
    }
}

/// One sentence of the paragraph `pid`.
proof fn lemma_sentence_passes(
    a: ArticleView,
    t: Set<Seq<char>>,
    c: ArticleView,
    s: SentenceState,
    pid: usize,
    prevs: Seq<usize>,
    raw: Seq<char>,
    vs: Seq<Seq<char>>,
)
    requires
        spells(a, t),
        c.sentences_ht == a.sentences_ht,
        sentences_kept(a, t, c, s),
        are_spelled(a, t, prevs),
        a.paragraphs.len() <= pid < c.paragraphs.len(),
        is_written(a, t, s.article, s.article.paragraphs[pid as int], vs),
        trimmed(raw).len() > 0,
        t.contains(normalized(trimmed(raw))),
        sentence_step(s, pid, prevs, raw).article.sentences.len() <= usize::MAX,
    ensures
        ({
            let u = sentence_step(s, pid, prevs, raw);
            &&& sentences_kept(a, t, c, u)
            &&& is_written(
                a,
                t,
                u.article,
                u.article.paragraphs[pid as int],
                vs.push(normalized(trimmed(raw))),
            )
            &&& forall|i: int|
                0 <= i < c.paragraphs.len() && i != pid ==> #[trigger] u.article.paragraphs[i]
                    == s.article.paragraphs[i]
            &&& s.article.sentences.len() <= u.article.sentences.len()
            &&& forall|i: int|
                0 <= i < s.article.sentences.len() ==> #[trigger] u.article.sentences[i]
                    == s.article.sentences[i]
        }),
{
    let b = s.article;
    let v = normalized(trimmed(raw));
    let hash = md5_hex(v);
    let u = sentence_step(s, pid, prevs, raw);
    let d = u.article;
    let n = a.sentences.len() as int;
    let first = scan_in_paragraphs(b, prevs, 0, hash, s.matched, s.matched_prev);
    lemma_found_in_paragraphs(a, t, b, prevs, 0, hash, s.matched, s.matched_prev);
    lemma_found_in_bucket(a, t, b, a.sentences_ht, hash, first.0, first.1);
    let (m, past, found) = find_sentence(b, prevs, hash, s.matched, s.matched_prev);
    let sid = match found {
        Some(sid) => sid,
        None => b.sentences.len() as usize,
    };
    let p = b.paragraphs[pid as int];
    let q = d.paragraphs[pid as int];
    assert(q == ParagraphView {
        sentences: with_id(p.sentences, hash, sid),
        ordered_sentences: p.ordered_sentences.push(hash),
        ..p
    });
    assert forall|i: int| 0 <= i < b.sentences.len() implies #[trigger] d.sentences[i]
        == b.sentences[i] by {}
    lemma_written_later(a, t, b, d, p, vs);
    lemma_aligned_more(p.sentences, p.ordered_sentences, hash, sid);
    assert(placed_sentence(a, t, d)(hash, sid));
    lemma_filed_more(p.sentences, hash, sid, placed_sentence(a, t, d));
    let sids = ordered_ids(p.sentences, p.ordered_sentences);
    let more = ordered_ids(q.sentences, q.ordered_sentences);
    let ws = vs.push(v);
    assert forall|i: int| 0 <= i < ws.len() implies sentence_stands_for(
        a,
        d,
        #[trigger] more[i],
        ws[i],
    ) by {
        if i < vs.len() {
            assert(more[i] == sids[i]);
            assert(sentence_stands_for(a, d, sids[i], vs[i]));
        }
    }
    assert forall|i: int| n <= i < d.sentences.len() implies is_blank_sentence(
        t,
        #[trigger] d.sentences[i],
    ) by {
        if i < b.sentences.len() {
            assert(d.sentences[i] == b.sentences[i]);
        }
    }
    assert forall|i: int| 0 <= i < n implies #[trigger] d.sentences[i] == a.sentences[i] by {
        assert(d.sentences[i] == b.sentences[i]);
    }
    assert forall|i: int| 0 <= i < c.paragraphs.len() && i != pid implies #[trigger] d.paragraphs[i]
        == b.paragraphs[i] by {}
    assert forall|i: int| 0 <= i < a.paragraphs.len() implies #[trigger] d.paragraphs[i]
        == a.paragraphs[i] by {
        assert(d.paragraphs[i] == b.paragraphs[i]);
    }
    assert forall|i: int| 0 <= i < c.paragraphs.len() implies (#[trigger] d.paragraphs[i]).value
        == c.paragraphs[i].value && d.paragraphs[i].hash_value == c.paragraphs[i].hash_value by {
        assert(b.paragraphs[i].value == c.paragraphs[i].value);
        if i != pid {
            assert(d.paragraphs[i] == b.paragraphs[i]);
        }
    }
    assert(u.unmatched_curr =~= new_ids(n, d.sentences.len() as int));
}

/// The sentences of the paragraph `pid` from position `k` on.
proof fn lemma_sentences_pass(
    a: ArticleView,
    t: Set<Seq<char>>,
    c: ArticleView,
    s: SentenceState,
    pid: usize,
    prevs: Seq<usize>,
    raws: Seq<Seq<char>>,
    k: int,
)
    requires
        spells(a, t),
        c.sentences_ht == a.sentences_ht,
        sentences_kept(a, t, c, s),
        are_spelled(a, t, prevs),
        a.paragraphs.len() <= pid < c.paragraphs.len(),
        0 <= k <= raws.len(),
        is_written(
            a,
            t,
            s.article,
            s.article.paragraphs[pid as int],
            solid_sentences(raws.take(k)),
        ),
        forall|i: int|
            0 <= i < raws.len() && trimmed(#[trigger] raws[i]).len() > 0 ==> t.contains(
                normalized(trimmed(raws[i])),
            ),
        sentence_steps(s, pid, prevs, raws, k).article.sentences.len() <= usize::MAX,
    ensures
        ({
            let u = sentence_steps(s, pid, prevs, raws, k);
            &&& sentences_kept(a, t, c, u)
            &&& is_written(
                a,
                t,
                u.article,
                u.article.paragraphs[pid as int],
                solid_sentences(raws),
            )
            &&& forall|i: int|
                0 <= i < c.paragraphs.len() && i != pid ==> #[trigger] u.article.paragraphs[i]
                    == s.article.paragraphs[i]
            &&& s.article.sentences.len() <= u.article.sentences.len()
            &&& forall|i: int|
                0 <= i < s.article.sentences.len() ==> #[trigger] u.article.sentences[i]
                    == s.article.sentences[i]
        }),
    decreases raws.len() - k,
{
    if k < raws.len() {
        let r = sentence_step(s, pid, prevs, raws[k]);
        let u = sentence_steps(s, pid, prevs, raws, k);
        assert(r.article.paragraphs.len() == s.article.paragraphs.len());
        lemma_sentence_steps_grow(r, pid, prevs, raws, k + 1);
        assert(raws.take(k + 1).drop_last() =~= raws.take(k));
        assert(raws.take(k + 1).last() == raws[k]);
        if trimmed(raws[k]).len() > 0 {
            lemma_sentence_passes(
                a,
                t,
                c,
                s,
                pid,
                prevs,
                raws[k],
                solid_sentences(raws.take(k)),
            );
        }
        lemma_sentences_pass(a, t, c, r, pid, prevs, raws, k + 1);
        assert forall|i: int| 0 <= i < c.paragraphs.len() && i != pid implies #[trigger]
            u.article.paragraphs[i] == s.article.paragraphs[i] by {
            assert(u.article.paragraphs[i] == r.article.paragraphs[i]);
        }
        assert forall|i: int| 0 <= i < s.article.sentences.len() implies #[trigger]
            u.article.sentences[i] == s.article.sentences[i] by {
            assert(u.article.sentences[i] == r.article.sentences[i]);
        }
    } else {
        assert(raws.take(k) =~= raws);
    }
}

/// Whether the first `k` new paragraphs are written, and the others are as in `c`.
spec fn written_up_to(
    a: ArticleView,
    t: Set<Seq<char>>,
    c: ArticleView,
    b: ArticleView,
    k: int,
) -> bool {
    let n = a.paragraphs.len();
    &&& forall|i: int|
        n <= i < n + k ==> is_written(
            a,
            t,
            b,
            #[trigger] b.paragraphs[i],
            solid_sentences(sentences_of(c.paragraphs[i].value)),
        )
    &&& forall|i: int|
        n + k <= i < c.paragraphs.len() ==> #[trigger] b.paragraphs[i] == c.paragraphs[i]
}

/// The new paragraphs from the `k`th on.
proof fn lemma_sentence_level_passes(
    a: ArticleView,
    t: Set<Seq<char>>,
    c: ArticleView,
    s: SentenceState,
    prevs: Seq<usize>,
    k: int,
)
    requires
        spells(a, t),
        c.sentences_ht == a.sentences_ht,
        a.paragraphs.len() <= c.paragraphs.len() <= usize::MAX,
        forall|i: int|
            a.paragraphs.len() <= i < c.paragraphs.len() ==> is_blank_paragraph(
                t,
                #[trigger] c.paragraphs[i],
            ),
        sentences_kept(a, t, c, s),
        are_spelled(a, t, prevs),
        0 <= k <= c.paragraphs.len() - a.paragraphs.len(),
        written_up_to(a, t, c, s.article, k),
        sentence_paragraphs(
            s,
            new_ids(a.paragraphs.len() as int, c.paragraphs.len() as int),
            prevs,
            k,
        ).article.sentences.len() <= usize::MAX,
    ensures
        ({
            let u = sentence_paragraphs(
                s,
                new_ids(a.paragraphs.len() as int, c.paragraphs.len() as int),
                prevs,
                k,
            );
            &&& sentences_kept(a, t, c, u)
            &&& written_up_to(a, t, c, u.article, c.paragraphs.len() - a.paragraphs.len())
        }),
    decreases c.paragraphs.len() - k,
{
    let n = a.paragraphs.len() as int;
    let pids = new_ids(n, c.paragraphs.len() as int);
    if k < pids.len() {
        let pid = pids[k];
        let b = s.article;
        let p = b.paragraphs[pid as int];
        assert(pid == n + k);
        assert(p == c.paragraphs[pid as int]);
        assert(is_blank_paragraph(t, c.paragraphs[pid as int]));
        let raws = sentences_of(p.value);
        let r = sentence_steps(s, pid, prevs, raws, 0);
        lemma_sentence_steps_grow(s, pid, prevs, raws, 0);
        assert(ids_below(pids, r.article.paragraphs.len() as int));
        lemma_sentence_paragraphs_grow(r, pids, prevs, k + 1);
        assert(raws.take(0) =~= Seq::<Seq<char>>::empty());
        assert(is_written(a, t, b, p, Seq::empty())) by {
            assert(p.sentences =~= Seq::empty());
            assert(p.ordered_sentences =~= Seq::empty());
        }
        lemma_sentences_pass(a, t, c, s, pid, prevs, raws, 0);
        assert(written_up_to(a, t, c, r.article, k + 1)) by {
            assert forall|i: int| n <= i < n + k + 1 implies is_written(
                a,
                t,
                r.article,
                #[trigger] r.article.paragraphs[i],
                solid_sentences(sentences_of(c.paragraphs[i].value)),
            ) by {
                if i < n + k {
                    assert(r.article.paragraphs[i] == b.paragraphs[i]);
                    lemma_written_later(
                        a,
                        t,
                        b,
                        r.article,
                        b.paragraphs[i],
                        solid_sentences(sentences_of(c.paragraphs[i].value)),
                    );
                }
            }
            assert forall|i: int| n + k + 1 <= i < c.paragraphs.len() implies #[trigger]
                r.article.paragraphs[i] == c.paragraphs[i] by {
                assert(r.article.paragraphs[i] == b.paragraphs[i]);
            }
        }
        lemma_sentence_level_passes(a, t, c, r, prevs, k + 1);
    }
}

/// The words that go to the sentence `sid`.
pub(crate) open spec fn assigned(ws: Seq<(usize, Seq<char>)>, sid: usize) -> Seq<Seq<char>>
    decreases ws.len(),
{
    if ws.len() == 0 {
        Seq::empty()
    } else if ws.last().0 == sid {
        assigned(ws.drop_last(), sid).push(ws.last().1)
    } else {
        assigned(ws.drop_last(), sid)
    }
}

proof fn lemma_assigned_more(
    ws: Seq<(usize, Seq<char>)>,
    from: usize,
    words: Seq<Seq<char>>,
    sid: usize,
)
    ensures
        assigned(ws + words.map_values(|w: Seq<char>| (from, w)), sid) == assigned(ws, sid) + (
        if from == sid {
            words
        } else {
            Seq::empty()
        }),
    decreases words.len(),
{
    let tail = words.map_values(|w: Seq<char>| (from, w));
    let all = ws + tail;
    if words.len() == 0 {
        assert(all =~= ws);
        assert(assigned(ws, sid) + words =~= assigned(ws, sid));
        assert(assigned(ws, sid) + Seq::<Seq<char>>::empty() =~= assigned(ws, sid));
    } else {
        let less = words.drop_last();
        assert(all.drop_last() =~= ws + less.map_values(|w: Seq<char>| (from, w)));
        assert(all.last() == (from, words.last()));
        lemma_assigned_more(ws, from, less, sid);
        assert(assigned(ws, sid) + words =~= (assigned(ws, sid) + less).push(words.last()));
    }
}

/// Every new sentence gets the words of its own text.
pub(crate) proof fn lemma_assigned(b: ArticleView, m: int, k: int, sid: usize)
    requires
        0 <= m <= m + k <= b.sentences.len() <= usize::MAX,
    ensures
        assigned(sentence_words(b, new_ids(m, m + k)), sid) == if m <= sid < m + k {
            split_on(b.sentences[sid as int].value, " "@)
        } else {
            Seq::empty()
        },
    decreases k,
{
    let ids = new_ids(m, m + k);
    if k > 0 {
        assert(ids.drop_last() =~= new_ids(m, m + k - 1));
        lemma_assigned(b, m, k - 1, sid);
        let last = ids.last();
        let words = split_on(b.sentences[last as int].value, " "@);
        let head = sentence_words(b, ids.drop_last());
        lemma_assigned_more(head, last, words, sid);
        assert(Seq::<Seq<char>>::empty() + words =~= words);
        assert(assigned(head, sid) + Seq::<Seq<char>>::empty() =~= assigned(head, sid));
    }
}

/// What the word level keeps once the words `done` have their tokens: `c` is the
/// article before it, and the sentences from `m` on are new.
pub(crate) open spec fn is_filling(
    c: ArticleView,
    b: ArticleView,
    done: Seq<(usize, Seq<char>)>,
    m: int,
) -> bool {
    &&& b == (ArticleView {
        tokens: b.tokens,
        sentences: b.sentences,
        next_token_id: b.next_token_id,
        ..c
    })
    &&& b.next_token_id == b.tokens.len()
    &&& c.tokens.len() <= b.tokens.len()
    &&& forall|i: int| 0 <= i < c.tokens.len() ==> (#[trigger] b.tokens[i]).value == c.tokens[i].value
    &&& b.sentences.len() == c.sentences.len()
    &&& forall|i: int|
        0 <= i < c.sentences.len() ==> (#[trigger] b.sentences[i]).value == c.sentences[i].value
            && b.sentences[i].hash_value == c.sentences[i].hash_value
    &&& forall|i: int|
        0 <= i < m && i < c.sentences.len() ==> (#[trigger] b.sentences[i]).words
            == c.sentences[i].words
    &&& forall|i: int|
        m <= i < c.sentences.len() ==> ids_below(
            (#[trigger] b.sentences[i]).words,
            b.tokens.len() as int,
        ) && word_values(b, b.sentences[i].words) == assigned(done, i as usize)
}

/// Tokens that keep their texts leave what is filled alone.
proof fn lemma_filling_tokens(
    c: ArticleView,
    b: ArticleView,
    d: ArticleView,
    done: Seq<(usize, Seq<char>)>,
    m: int,
)
    requires
        is_filling(c, b, done, m),
        d == (ArticleView { tokens: d.tokens, next_token_id: d.next_token_id, ..b }),
        d.next_token_id == d.tokens.len(),
        b.tokens.len() <= d.tokens.len(),
        forall|i: int| 0 <= i < b.tokens.len() ==> (#[trigger] d.tokens[i]).value == b.tokens[i].value,
        0 <= m,
    ensures
        is_filling(c, d, done, m),
{
    assert forall|i: int| 0 <= i < c.tokens.len() implies (#[trigger] d.tokens[i]).value
        == c.tokens[i].value by {
        assert(b.tokens[i].value == c.tokens[i].value);
    }
    assert forall|i: int| m <= i < c.sentences.len() implies ids_below(
        (#[trigger] d.sentences[i]).words,
        d.tokens.len() as int,
    ) && word_values(d, d.sentences[i].words) == assigned(done, i as usize) by {
        let ws = b.sentences[i].words;
        assert(ids_below(ws, b.tokens.len() as int));
        assert forall|j: int| 0 <= j < ws.len() implies (#[trigger] ws[j]) < d.tokens.len() by {}
        assert(word_values(d, ws) =~= word_values(b, ws));
    }
}

/// A token put at the end of a new sentence.
proof fn lemma_filling_attach(
    c: ArticleView,
    b: ArticleView,
    done: Seq<(usize, Seq<char>)>,
    m: int,
    sid: usize,
    id: usize,
)
    requires
        is_filling(c, b, done, m),
        0 <= m <= sid < c.sentences.len(),
        c.sentences.len() <= usize::MAX,
        id < b.tokens.len(),
    ensures
        is_filling(
            c,
            word_attached(b, sid, id),
            done.push((sid, b.tokens[id as int].value)),
            m,
        ),
{
    let d = word_attached(b, sid, id);
    let more = done.push((sid, b.tokens[id as int].value));
    assert(more.drop_last() =~= done);
    assert forall|i: int| 0 <= i < c.sentences.len() implies (#[trigger] d.sentences[i]).value
        == c.sentences[i].value && d.sentences[i].hash_value == c.sentences[i].hash_value by {
        assert(b.sentences[i].value == c.sentences[i].value);
    }
    assert forall|i: int| 0 <= i < m && i < c.sentences.len() implies (
    #[trigger] d.sentences[i]).words == c.sentences[i].words by {
        assert(b.sentences[i].words == c.sentences[i].words);
    }
    assert forall|i: int| m <= i < c.sentences.len() implies ids_below(
        (#[trigger] d.sentences[i]).words,
        d.tokens.len() as int,
    ) && word_values(d, d.sentences[i].words) == assigned(more, i as usize) by {
        let ws = b.sentences[i].words;
        assert(ids_below(ws, b.tokens.len() as int));
        assert(word_values(b, ws) == assigned(done, i as usize));
        if i == sid {
            assert(d.sentences[i].words == ws.push(id));
            assert(word_values(d, ws.push(id)) =~= word_values(b, ws).push(
                b.tokens[id as int].value,
            ));
        } else {
            assert(word_values(d, ws) =~= word_values(b, ws));
        }
    }
}

/// A new token put at the end of a new sentence.
proof fn lemma_filling_add(
    c: ArticleView,
    b: ArticleView,
    done: Seq<(usize, Seq<char>)>,
    m: int,
    sid: usize,
    word: Seq<char>,
    rev: u64,
)
    requires
        is_filling(c, b, done, m),
        0 <= m <= sid < c.sentences.len(),
        c.sentences.len() <= usize::MAX,
        b.tokens.len() < usize::MAX,
    ensures
        is_filling(c, word_added(b, sid, word, rev), done.push((sid, word)), m),
{
    let d = b.with_word(word, rev);
    lemma_filling_tokens(c, b, d, done, m);
    assert(d.tokens[b.next_token_id as int].value == word);
    lemma_filling_attach(c, d, done, m, sid, b.next_token_id);
}

/// Whether the texts of the previous tokens are those they have in `c`.
spec fn context_ok(c: ArticleView, x: WordContext) -> bool {
    &&& x.prev_texts.len() == x.prev_ids.len()
    &&& forall|i: int|
        0 <= i < x.prev_ids.len() ==> (#[trigger] x.prev_ids[i]) < c.tokens.len()
            && c.tokens[x.prev_ids[i] as int].value == x.prev_texts[i]
}

proof fn lemma_scan_fills(
    c: ArticleView,
    s: WordState,
    x: WordContext,
    sid: usize,
    word: Seq<char>,
    pos: int,
    done: Seq<(usize, Seq<char>)>,
    m: int,
)
    requires
        is_filling(c, s.article, done, m),
        context_ok(c, x),
        0 <= m <= sid < c.sentences.len(),
        c.sentences.len() <= usize::MAX,
        s.article.tokens.len() < usize::MAX,
        0 <= pos,
    ensures
        ({
            let (u, found) = scan_steps(s, x, sid, word, pos);
            &&& is_filling(
                c,
                u.article,
                if found {
                    done.push((sid, word))
                } else {
                    done
                },
                m,
            )
            &&& !found ==> u.article.tokens.len() == s.article.tokens.len()
        }),
    decreases x.ops.len() - pos,
{
    if pos < x.ops.len() {
        let b = s.article;
        lemma_find_prev(x.prev_ids, x.prev_texts, s.tokens, word, 0);
        if s.used[pos] || step_text(x.ops[pos]) != word {
            lemma_scan_fills(c, s, x, sid, word, pos + 1, done, m);
        } else {
            let found = find_prev(x.prev_ids, x.prev_texts, s.tokens, word, 0);
            match x.ops[pos] {
                Step::Keep(v) => {
                    match found {
                        Some(i) => {
                            let id = x.prev_ids[i];
                            assert(c.tokens[id as int].value == word);
                            assert(b.tokens[id as int].value == word);
                            lemma_filling_attach(c, b, done, m, sid, id);
                        },
                        None => {
                            lemma_scan_fills(c, s, x, sid, word, pos + 1, done, m);
                        },
                    }
                },
                Step::Delete(v) => {
                    match found {
                        Some(i) => {
                            let id = x.prev_ids[i];
                            let d = b.set_word(
                                id as int,
                                WordView {
                                    outbound: b.tokens[id as int].outbound.push(x.rev),
                                    ..b.tokens[id as int]
                                },
                            );
                            lemma_filling_tokens(c, b, d, done, m);
                            let r = WordState {
                                article: d,
                                tokens: s.tokens.insert(id),
                                words: s.words.push(id),
                                used: s.used.update(pos, true),
                                ..s
                            };
                            lemma_scan_fills(c, r, x, sid, word, pos + 1, done, m);
                        },
                        None => {
                            lemma_scan_fills(c, s, x, sid, word, pos + 1, done, m);
                        },
                    }
                },
                Step::Insert(v) => {
                    lemma_filling_add(c, b, done, m, sid, word, x.rev);
                },
            }
        }
    }
}

/// Whether every word goes to a new sentence.
pub(crate) open spec fn words_go_to_new(ws: Seq<(usize, Seq<char>)>, c: ArticleView, m: int) -> bool {
    forall|i: int| 0 <= i < ws.len() ==> m <= (#[trigger] ws[i]).0 < c.sentences.len()
}

proof fn lemma_words_fill(
    c: ArticleView,
    s: WordState,
    x: WordContext,
    ws: Seq<(usize, Seq<char>)>,
    k: int,
    m: int,
)
    requires
        is_filling(c, s.article, ws.take(k), m),
        context_ok(c, x),
        words_go_to_new(ws, c, m),
        0 <= m,
        c.sentences.len() <= usize::MAX,
        0 <= k <= ws.len(),
        word_steps(s, x, ws, k).article.tokens.len() < usize::MAX,
    ensures
        is_filling(c, word_steps(s, x, ws, k).article, ws, m),
    decreases ws.len() - k,
{
    if k < ws.len() {
        let (sid, word) = ws[k];
        let done = ws.take(k);
        let r = word_step(s, x, sid, word);
        let u = scan_steps(s, x, sid, word, 0).0;
        assert(ws[k].0 < c.sentences.len());
        assert(ids_below(x.prev_ids, s.article.tokens.len() as int));
        assert forall|i: int| 0 <= i < ws.len() implies (#[trigger] ws[i]).0
            < s.article.sentences.len() by {}
        lemma_scan_steps_grow(s, x, sid, word, 0);
        lemma_word_add_grows(u.article, sid, word, x.rev);
        assert(s.article.tokens.len() <= r.article.tokens.len());
        assert(ids_below(x.prev_ids, r.article.tokens.len() as int));
        lemma_word_steps_grow(r, x, ws, k + 1);
        lemma_scan_fills(c, s, x, sid, word, 0, done, m);
        if !scan_steps(s, x, sid, word, 0).1 {
            lemma_filling_add(c, u.article, done, m, sid, word, x.rev);
        }
        assert(ws.take(k + 1) =~= done.push((sid, word)));
        lemma_words_fill(c, r, x, ws, k + 1, m);
    } else {
        assert(ws.take(k) =~= ws);
    }
}

proof fn lemma_new_words_fill(
    c: ArticleView,
    b: ArticleView,
    ws: Seq<(usize, Seq<char>)>,
    k: int,
    rev: u64,
    m: int,
)
    requires
        is_filling(c, b, ws.take(k), m),
        words_go_to_new(ws, c, m),
        0 <= m,
        c.sentences.len() <= usize::MAX,
        0 <= k <= ws.len(),
        words_added(b, ws, k, rev).tokens.len() < usize::MAX,
    ensures
        is_filling(c, words_added(b, ws, k, rev), ws, m),
    decreases ws.len() - k,
{
    if k < ws.len() {
        let (sid, word) = ws[k];
        let d = word_added(b, sid, word, rev);
        assert(ws[k].0 < c.sentences.len());
        lemma_word_add_grows(b, sid, word, rev);
        assert forall|i: int| 0 <= i < ws.len() implies (#[trigger] ws[i]).0 < d.sentences.len() by {}
        lemma_words_added_grow(d, ws, k + 1, rev);
        lemma_filling_add(c, b, ws.take(k), m, sid, word, rev);
        assert(ws.take(k + 1) =~= ws.take(k).push((sid, word)));
        lemma_new_words_fill(c, d, ws, k + 1, rev, m);
    } else {
        assert(ws.take(k) =~= ws);
    }
}

pub(crate) proof fn lemma_words_are_new(c: ArticleView, m: int, k: int)
    requires
        0 <= m <= m + k <= c.sentences.len() <= usize::MAX,
    ensures
        words_go_to_new(sentence_words(c, new_ids(m, m + k)), c, m),
    decreases k,
{
    let ids = new_ids(m, m + k);
    if k > 0 {
        assert(ids.drop_last() =~= new_ids(m, m + k - 1));
        lemma_words_are_new(c, m, k - 1);
        let head = sentence_words(c, ids.drop_last());
        let all = sentence_words(c, ids);
        assert forall|i: int| 0 <= i < all.len() implies m <= (#[trigger] all[i]).0
            < c.sentences.len() by {
            if i < head.len() {
                assert(all[i] == head[i]);
            } else {
                assert(all[i].0 == ids.last());
            }
        }
    }
}

/// After the word level every new sentence spells its own text.
pub(crate) proof fn lemma_word_level_fills(
    c: ArticleView,
    m: int,
    prev: Seq<usize>,
    suspect: bool,
    rev: u64,
    adds: nat,
    tokens: Set<usize>,
)
    requires
        is_linked(c),
        c.next_token_id == c.tokens.len(),
        0 <= m <= c.sentences.len() <= usize::MAX,
        forall|i: int| m <= i < c.sentences.len() ==> (#[trigger] c.sentences[i]).words.len() == 0,
        ids_below(prev, c.sentences.len() as int),
        word_level(
            c,
            new_ids(m, c.sentences.len() as int),
            prev,
            suspect,
            rev,
            adds,
            tokens,
        ).article.tokens.len() < usize::MAX,
    ensures
        ({
            let curr = new_ids(m, c.sentences.len() as int);
            let w = word_level(c, curr, prev, suspect, rev, adds, tokens);
            &&& w.vandalism ==> w.article == c
            &&& !w.vandalism ==> is_filling(c, w.article, sentence_words(c, curr), m)
        }),
{
    let n = c.sentences.len() as int;
    let curr = new_ids(m, n);
    let ws = sentence_words(c, curr);
    let ids = not_in(words_of(c.sentences, prev), tokens);
    lemma_words_are_new(c, m, n - m);
    lemma_words_below(c.sentences, prev, c.tokens.len() as int);
    lemma_not_in_below(words_of(c.sentences, prev), tokens, c.tokens.len() as int);
    assert(ws.take(0) =~= Seq::<(usize, Seq<char>)>::empty());
    assert(is_filling(c, c, ws.take(0), m)) by {
        assert forall|i: int| m <= i < n implies ids_below(
            (#[trigger] c.sentences[i]).words,
            c.tokens.len() as int,
        ) && word_values(c, c.sentences[i].words) == assigned(ws.take(0), i as usize) by {
            assert(word_values(c, c.sentences[i].words) =~= Seq::<Seq<char>>::empty());
        }
    }
    let x = WordContext {
        prev_ids: ids,
        prev_texts: word_values(c, ids),
        ops: transcript(word_values(c, ids), words_only(ws)),
        rev,
    };
    let s = WordState {
        article: c,
        tokens,
        words: Seq::empty(),
        used: Seq::new(x.ops.len(), |i: int| false),
        adds,
    };
    if ws.len() == 0 {
        assert(ws =~= ws.take(0));
    } else if suspect && is_dense(words_only(ws)) {
    } else if ids.len() == 0 {
        lemma_new_words_fill(c, c, ws, 0, rev, m);
    } else {
        assert(context_ok(c, x)) by {
            assert forall|i: int| 0 <= i < x.prev_ids.len() implies (#[trigger] x.prev_ids[i])
                < c.tokens.len() && c.tokens[x.prev_ids[i] as int].value == x.prev_texts[i] by {}
        }
        lemma_words_fill(c, s, x, ws, 0, m);
    }
}

/// The words of the sentences `vs` as they are filed, one after the other.
pub(crate) open spec fn words_filed(vs: Seq<Seq<char>>) -> Seq<Seq<char>>
    decreases vs.len(),
{
    if vs.len() == 0 {
        Seq::empty()
    } else {
        words_filed(vs.drop_last()) + split_on(vs.last(), " "@)
    }
}

/// The sentences as they are filed give the tokens of the sentences.
pub(crate) proof fn lemma_words_filed(raws: Seq<Seq<char>>)
    ensures
        words_filed(solid_sentences(raws)) == sentence_tokens(raws),
    decreases raws.len(),
{
    if raws.len() > 0 {
        lemma_words_filed(raws.drop_last());
        let v = trimmed(raws.last());
        let less = solid_sentences(raws.drop_last());
        if v.len() == 0 {
            assert(sentence_tokens(raws) =~= sentence_tokens(raws.drop_last()));
        } else {
            trimmed_begins_solid(raws.last());
            text_has_tokens(v, 0);
            sentence_round_trip(v);
            assert(solid_sentences(raws).drop_last() =~= less);
        }
    }
}

/// The tokens of the paragraphs `vs`, one after the other.
pub(crate) open spec fn tokens_filed(vs: Seq<Seq<char>>) -> Seq<Seq<char>>
    decreases vs.len(),
{
    if vs.len() == 0 {
        Seq::empty()
    } else {
        tokens_filed(vs.drop_last()) + sentence_tokens(sentences_of(vs.last()))
    }
}

/// The paragraphs of a text without the whitespace at their ends.
pub open spec fn all_trimmed(raws: Seq<Seq<char>>) -> Seq<Seq<char>> {
    raws.map_values(|p: Seq<char>| trimmed(p))
}

/// The paragraphs as they are filed give the tokens of the trimmed paragraphs.
pub(crate) proof fn lemma_tokens_filed(raws: Seq<Seq<char>>)
    ensures
        tokens_filed(solid_paragraphs(raws)) == paragraph_tokens(all_trimmed(raws)),
    decreases raws.len(),
{
    if raws.len() > 0 {
        lemma_tokens_filed(raws.drop_last());
        let v = trimmed(raws.last());
        let less = solid_paragraphs(raws.drop_last());
        assert(all_trimmed(raws).drop_last() =~= all_trimmed(raws.drop_last()));
        assert(all_trimmed(raws).last() == v);
        if v.len() == 0 {
            assert(trimmed(v) =~= Seq::<char>::empty());
            assert(paragraph_tokens(all_trimmed(raws)) =~= paragraph_tokens(
                all_trimmed(raws.drop_last()),
            ));
        } else {
            trimmed_begins_solid(raws.last());
            assert(solid_paragraphs(raws).drop_last() =~= less);
        }
    }
}

/// What the cascade leaves of a text that is not vandalism: the sentences and
/// paragraphs that are not of `a` spell their texts.
spec fn is_filled(a: ArticleView, t: Set<Seq<char>>, b: ArticleView) -> bool {
    &&& b == (ArticleView {
        tokens: b.tokens,
        sentences: b.sentences,
        paragraphs: b.paragraphs,
        next_token_id: b.next_token_id,
        ..a
    })
    &&& b.next_token_id == b.tokens.len()
    &&& settled(a, b)
    &&& forall|i: int|
        a.sentences.len() <= i < b.sentences.len() ==> {
            let s = #[trigger] b.sentences[i];
            &&& t.contains(s.value)
            &&& s.hash_value == md5_hex(s.value)
            &&& ids_below(s.words, b.tokens.len() as int)
            &&& word_values(b, s.words) == split_on(s.value, " "@)
        }
    &&& forall|i: int|
        a.paragraphs.len() <= i < b.paragraphs.len() ==> {
            let p = #[trigger] b.paragraphs[i];
            &&& t.contains(p.value)
            &&& p.hash_value == md5_hex(p.value)
            &&& is_written(a, t, b, p, solid_sentences(sentences_of(p.value)))
        }
}

proof fn lemma_placed_sentence(
    a: ArticleView,
    t: Set<Seq<char>>,
    b: ArticleView,
    hash: Seq<char>,
    sid: usize,
)
    requires
        is_linked(a),
        tells_apart(t),
        is_filled(a, t, b),
        placed_sentence(a, t, b)(hash, sid),
    ensures
        sentence_spells(b, t, hash, sid),
{
    if sid < a.sentences.len() {
        lemma_settled_sentence(a, b, t, hash, sid);
    } else {
        let s = b.sentences[sid as int];
        assert(t.contains(s.value));
    }
}

proof fn lemma_filled_linked(a: ArticleView, t: Set<Seq<char>>, b: ArticleView)
    requires
        is_linked(a),
        is_filled(a, t, b),
    ensures
        is_linked(b),
{
    assert forall|i: int| 0 <= i < b.sentences.len() implies ids_below(
        (#[trigger] b.sentences[i]).words,
        b.tokens.len() as int,
    ) by {
        if i < a.sentences.len() {
            let ws = a.sentences[i].words;
            assert(b.sentences[i].words == ws);
            assert(ids_below(ws, a.tokens.len() as int));
            assert forall|j: int| 0 <= j < ws.len() implies (#[trigger] ws[j]) < b.tokens.len() by {}
        }
    }
    assert forall|i: int| 0 <= i < b.paragraphs.len() implies entries_below(
        (#[trigger] b.paragraphs[i]).sentences,
        b.sentences.len() as int,
    ) by {
        let e = b.paragraphs[i].sentences;
        assert forall|k: int| 0 <= k < e.len() implies ids_below(
            (#[trigger] e[k]).1,
            b.sentences.len() as int,
        ) by {
            assert forall|j: int| 0 <= j < e[k].1.len() implies (#[trigger] e[k].1[j])
                < b.sentences.len() by {
                if i < a.paragraphs.len() {
                    assert(e == a.paragraphs[i].sentences);
                    assert(entries_below(e, a.sentences.len() as int));
                    assert(ids_below(e[k].1, a.sentences.len() as int));
                } else {
                    assert(is_written(
                        a,
                        t,
                        b,
                        b.paragraphs[i],
                        solid_sentences(sentences_of(b.paragraphs[i].value)),
                    ));
                    assert(placed_sentence(a, t, b)(e[k].0, e[k].1[j]));
                }
            }
        }
    }
}

proof fn lemma_values_add(b: ArticleView, x: Seq<usize>, y: Seq<usize>)
    ensures
        word_values(b, x + y) == word_values(b, x) + word_values(b, y),
{
    assert(word_values(b, x + y) =~= word_values(b, x) + word_values(b, y));
}

proof fn lemma_sentences_read(
    a: ArticleView,
    t: Set<Seq<char>>,
    b: ArticleView,
    sids: Seq<usize>,
    vs: Seq<Seq<char>>,
)
    requires
        is_linked(a),
        is_filled(a, t, b),
        sids.len() == vs.len(),
        forall|i: int| 0 <= i < vs.len() ==> sentence_stands_for(a, b, #[trigger] sids[i], vs[i]),
    ensures
        word_values(b, words_of(b.sentences, sids)) == words_filed(vs),
    decreases sids.len(),
{
    if sids.len() > 0 {
        let n = sids.len() - 1;
        let less = sids.drop_last();
        assert forall|i: int| 0 <= i < vs.drop_last().len() implies sentence_stands_for(
            a,
            b,
            #[trigger] less[i],
            vs.drop_last()[i],
        ) by {
            assert(less[i] == sids[i]);
        }
        lemma_sentences_read(a, t, b, less, vs.drop_last());
        let sid = sids[n];
        assert(sentence_stands_for(a, b, sids[n], vs[n]));
        let ws = b.sentences[sid as int].words;
        if sid < a.sentences.len() {
            assert(ids_below(a.sentences[sid as int].words, a.tokens.len() as int));
            lemma_settled_values(a, b, a.sentences[sid as int].words);
        }
        lemma_values_add(b, words_of(b.sentences, less), ws);
    } else {
        assert(word_values(b, words_of(b.sentences, sids)) =~= Seq::<Seq<char>>::empty());
    }
}

/// A new paragraph spells its text.
proof fn lemma_new_paragraph_reads(
    a: ArticleView,
    t: Set<Seq<char>>,
    b: ArticleView,
    pid: usize,
)
    requires
        is_linked(a),
        is_filled(a, t, b),
        a.paragraphs.len() <= pid < b.paragraphs.len(),
    ensures
        word_values(b, text_words(b, b.paragraphs[pid as int])) == sentence_tokens(
            sentences_of(b.paragraphs[pid as int].value),
        ),
{
    let p = b.paragraphs[pid as int];
    let raws = sentences_of(p.value);
    assert(is_written(a, t, b, p, solid_sentences(raws)));
    lemma_sentences_read(
        a,
        t,
        b,
        ordered_ids(p.sentences, p.ordered_sentences),
        solid_sentences(raws),
    );
    lemma_words_filed(raws);
}

proof fn lemma_placed_paragraph(
    a: ArticleView,
    t: Set<Seq<char>>,
    b: ArticleView,
    hash: Seq<char>,
    pid: usize,
)
    requires
        is_linked(a),
        tells_apart(t),
        is_filled(a, t, b),
        placed_paragraph(a, t, b)(hash, pid),
    ensures
        paragraph_spells(b, t, hash, pid),
{
    if pid < a.paragraphs.len() {
        lemma_settled_paragraph(a, b, t, hash, pid);
    } else {
        let p = b.paragraphs[pid as int];
        assert(t.contains(p.value));
        lemma_new_paragraph_reads(a, t, b, pid);
        assert(is_written(a, t, b, p, solid_sentences(sentences_of(p.value))));
        assert forall|h: Seq<char>, sid: usize| #[trigger]
            placed_sentence(a, t, b)(h, sid) implies spelled_sentence(b, t)(h, sid) by {
            lemma_placed_sentence(a, t, b, h, sid);
        }
        lemma_filed_weaker(p.sentences, placed_sentence(a, t, b), spelled_sentence(b, t));
    }
}

proof fn lemma_paragraphs_read(
    a: ArticleView,
    t: Set<Seq<char>>,
    b: ArticleView,
    pids: Seq<usize>,
    vs: Seq<Seq<char>>,
)
    requires
        is_linked(a),
        is_filled(a, t, b),
        pids.len() == vs.len(),
        forall|i: int| 0 <= i < vs.len() ==> stands_for(a, b, #[trigger] pids[i], vs[i]),
    ensures
        word_values(b, tokens_of_paragraphs(b, pids)) == tokens_filed(vs),
    decreases pids.len(),
{
    if pids.len() > 0 {
        let n = pids.len() - 1;
        let less = pids.drop_last();
        assert forall|i: int| 0 <= i < vs.drop_last().len() implies stands_for(
            a,
            b,
            #[trigger] less[i],
            vs.drop_last()[i],
        ) by {
            assert(less[i] == pids[i]);
        }
        lemma_paragraphs_read(a, t, b, less, vs.drop_last());
        let pid = pids[n];
        assert(stands_for(a, b, pids[n], vs[n]));
        if pid < a.paragraphs.len() {
            lemma_settled_text(a, b, pid);
        } else {
            lemma_new_paragraph_reads(a, t, b, pid);
        }
        lemma_values_add(
            b,
            tokens_of_paragraphs(b, less),
            text_words(b, b.paragraphs[pid as int]),
        );
    } else {
        assert(word_values(b, tokens_of_paragraphs(b, pids)) =~= Seq::<Seq<char>>::empty());
    }
}

pub(crate) proof fn lemma_ordered_such(
    e: Entries,
    ordered: Seq<Seq<char>>,
    i: int,
    such: spec_fn(usize) -> bool,
)
    requires
        all_filed(e, |h: Seq<char>, id: usize| such(id)),
    ensures
        forall|j: int|
            0 <= j < ids_from(e, ordered, i).len() ==> such(#[trigger] ids_from(e, ordered, i)[j]),
    decreases ordered.len() - i,
{
    if 0 <= i < ordered.len() {
        lemma_ordered_such(e, ordered, i + 1, such);
        lemma_filed_bucket(e, ordered[i], |h: Seq<char>, id: usize| such(id));
        let rest = ids_from(e, ordered, i + 1);
        let all = ids_from(e, ordered, i);
        assert forall|j: int| 0 <= j < all.len() implies such(#[trigger] all[j]) by {
            match id_at(e, ordered, i) {
                Some(id) => {
                    if j > 0 {
                        assert(all[j] == rest[j - 1]);
                    }
                },
                None => {
                    assert(all[j] == rest[j]);
                },
            }
        }
    }
}

pub(crate) proof fn lemma_not_in_among(ids: Seq<usize>, set: Set<usize>)
    ensures
        forall|j: int|
            0 <= j < not_in(ids, set).len() ==> ids.contains(#[trigger] not_in(ids, set)[j]),
    decreases ids.len(),
{
    if ids.len() > 0 {
        let less = ids.drop_last();
        lemma_not_in_among(less, set);
        let r = not_in(ids, set);
        assert forall|j: int| 0 <= j < r.len() implies ids.contains(#[trigger] r[j]) by {
            if j < not_in(less, set).len() {
                assert(r[j] == not_in(less, set)[j]);
                let i = choose|i: int| 0 <= i < less.len() && less[i] == r[j];
                assert(ids[i] == r[j]);
            } else {
                assert(ids[ids.len() - 1] == r[j]);
            }
        }
    }
}

/// The previous paragraphs left over are spelled.
proof fn lemma_left_spelled(
    a: ArticleView,
    t: Set<Seq<char>>,
    prev: RevisionView,
    m: MatchedView,
)
    requires
        all_filed(prev.paragraphs, spelled_paragraph(a, t)),
    ensures
        are_spelled(a, t, paragraphs_left(prev, m)),
{
    let all = ordered_ids(prev.paragraphs, prev.ordered_paragraphs);
    let left = paragraphs_left(prev, m);
    let such = |pid: usize|
        pid < a.paragraphs.len() && all_filed(
            a.paragraphs[pid as int].sentences,
            spelled_sentence(a, t),
        );
    lemma_filed_weaker(
        prev.paragraphs,
        spelled_paragraph(a, t),
        |h: Seq<char>, pid: usize| such(pid),
    );
    lemma_ordered_such(prev.paragraphs, prev.ordered_paragraphs, 0, such);
    lemma_not_in_among(all, m.paragraphs);
    assert forall|i: int| 0 <= i < left.len() implies (#[trigger] left[i]) < a.paragraphs.len()
        && all_filed(a.paragraphs[left[i] as int].sentences, spelled_sentence(a, t)) by {
        let j = choose|j: int| 0 <= j < all.len() && all[j] == left[i];
        assert(such(all[j]));
    }
}

pub(crate) proof fn lemma_sentences_left_below(
    ids: Seq<usize>,
    k: int,
    m: Set<usize>,
    left: Seq<usize>,
    n: int,
)
    requires
        0 <= k,
        ids_below(ids, n),
        ids_below(left, n),
    ensures
        ids_below(sentences_left(ids, k, m, left).1, n),
    decreases ids.len() - k,
{
    if k < ids.len() {
        if m.contains(ids[k]) {
            lemma_sentences_left_below(ids, k + 1, m, left, n);
        } else {
            lemma_sentences_left_below(ids, k + 1, m.insert(ids[k]), left.push(ids[k]), n);
        }
    }
}

pub(crate) proof fn lemma_left_in_below(
    b: ArticleView,
    pids: Seq<usize>,
    k: int,
    m: Set<usize>,
    left: Seq<usize>,
)
    requires
        0 <= k,
        is_linked(b),
        ids_below(pids, b.paragraphs.len() as int),
        ids_below(left, b.sentences.len() as int),
    ensures
        ids_below(sentences_left_in(b, pids, k, m, left).1, b.sentences.len() as int),
    decreases pids.len() - k,
{
    if k < pids.len() {
        let n = b.sentences.len() as int;
        let p = b.paragraphs[pids[k] as int];
        let ids = ordered_ids(p.sentences, p.ordered_sentences);
        assert(entries_below(p.sentences, n));
        lemma_ordered_below(p.sentences, p.ordered_sentences, 0, n);
        lemma_sentences_left_below(ids, 0, m, left, n);
        let here = sentences_left(ids, 0, m, left);
        lemma_left_in_below(b, pids, k + 1, here.0, here.1);
    }
}

/// Whether what the analysis of a text adds gets ids of its own.
pub open spec fn has_room(
    a: ArticleView,
    text: Seq<char>,
    prev: RevisionView,
    curr: RevisionView,
) -> bool {
    let p = paragraph_level(a, text, prev, curr, nothing_matched());
    let s = sentence_pass(
        p.article,
        p.unmatched_curr,
        paragraphs_left(prev, p.matched),
        p.matched,
    );
    &&& p.article.paragraphs.len() <= usize::MAX
    &&& s.article.sentences.len() <= usize::MAX
    &&& authorship(a, text, prev, curr).0.tokens.len() < usize::MAX
}

/// What the sentence level leaves.
spec fn is_outlined(a: ArticleView, t: Set<Seq<char>>, b: ArticleView) -> bool {
    &&& b == (ArticleView { sentences: b.sentences, paragraphs: b.paragraphs, ..a })
    &&& a.sentences.len() <= b.sentences.len() <= usize::MAX
    &&& forall|i: int| 0 <= i < a.sentences.len() ==> #[trigger] b.sentences[i] == a.sentences[i]
    &&& forall|i: int|
        a.sentences.len() <= i < b.sentences.len() ==> is_blank_sentence(
            t,
            #[trigger] b.sentences[i],
        )
    &&& a.paragraphs.len() <= b.paragraphs.len() <= usize::MAX
    &&& forall|i: int|
        0 <= i < a.paragraphs.len() ==> #[trigger] b.paragraphs[i] == a.paragraphs[i]
    &&& forall|i: int|
        a.paragraphs.len() <= i < b.paragraphs.len() ==> {
            let p = #[trigger] b.paragraphs[i];
            &&& t.contains(p.value)
            &&& p.hash_value == md5_hex(p.value)
            &&& is_written(a, t, b, p, solid_sentences(sentences_of(p.value)))
        }
}

proof fn lemma_outlined_linked(a: ArticleView, t: Set<Seq<char>>, b: ArticleView)
    requires
        is_linked(a),
        is_outlined(a, t, b),
    ensures
        is_linked(b),
        settled(a, b),
{
    assert forall|i: int| 0 <= i < b.sentences.len() implies ids_below(
        (#[trigger] b.sentences[i]).words,
        b.tokens.len() as int,
    ) by {
        if i < a.sentences.len() {
            assert(b.sentences[i] == a.sentences[i]);
        } else {
            assert(is_blank_sentence(t, b.sentences[i]));
        }
    }
    assert forall|i: int| 0 <= i < b.paragraphs.len() implies entries_below(
        (#[trigger] b.paragraphs[i]).sentences,
        b.sentences.len() as int,
    ) by {
        let e = b.paragraphs[i].sentences;
        assert forall|k: int| 0 <= k < e.len() implies ids_below(
            (#[trigger] e[k]).1,
            b.sentences.len() as int,
        ) by {
            assert forall|j: int| 0 <= j < e[k].1.len() implies (#[trigger] e[k].1[j])
                < b.sentences.len() by {
                if i < a.paragraphs.len() {
                    assert(e == a.paragraphs[i].sentences);
                    assert(entries_below(e, a.sentences.len() as int));
                    assert(ids_below(e[k].1, a.sentences.len() as int));
                } else {
                    assert(is_written(
                        a,
                        t,
                        b,
                        b.paragraphs[i],
                        solid_sentences(sentences_of(b.paragraphs[i].value)),
                    ));
                    assert(placed_sentence(a, t, b)(e[k].0, e[k].1[j]));
                }
            }
        }
    }
}

/// The word level fills what the sentence level outlines.
proof fn lemma_outlined_filled(
    a: ArticleView,
    t: Set<Seq<char>>,
    c: ArticleView,
    b: ArticleView,
)
    requires
        is_linked(a),
        is_outlined(a, t, c),
        is_filling(
            c,
            b,
            sentence_words(c, new_ids(a.sentences.len() as int, c.sentences.len() as int)),
            a.sentences.len() as int,
        ),
    ensures
        is_filled(a, t, b),
{
    let m = a.sentences.len() as int;
    let n = c.sentences.len() as int;
    assert forall|i: int| m <= i < n implies ({
        let s = #[trigger] b.sentences[i];
        &&& t.contains(s.value)
        &&& s.hash_value == md5_hex(s.value)
        &&& ids_below(s.words, b.tokens.len() as int)
        &&& word_values(b, s.words) == split_on(s.value, " "@)
    }) by {
        assert(is_blank_sentence(t, c.sentences[i]));
        assert(b.sentences[i].value == c.sentences[i].value);
        lemma_assigned(c, m, n - m, i as usize);
    }
    assert forall|i: int| a.paragraphs.len() <= i < b.paragraphs.len() implies ({
        let p = #[trigger] b.paragraphs[i];
        &&& t.contains(p.value)
        &&& p.hash_value == md5_hex(p.value)
        &&& is_written(a, t, b, p, solid_sentences(sentences_of(p.value)))
    }) by {
        let p = c.paragraphs[i];
        assert(b.paragraphs[i] == p);
        lemma_written_later(a, t, c, b, p, solid_sentences(sentences_of(p.value)));
    }
    assert forall|i: int| 0 <= i < m implies (#[trigger] b.sentences[i]).words
        == a.sentences[i].words by {
        assert(b.sentences[i].words == c.sentences[i].words);
        assert(c.sentences[i] == a.sentences[i]);
    }
    assert forall|i: int| 0 <= i < a.paragraphs.len() implies (#[trigger] b.paragraphs[i]).sentences
        == a.paragraphs[i].sentences && b.paragraphs[i].ordered_sentences
        == a.paragraphs[i].ordered_sentences by {
        assert(c.paragraphs[i] == a.paragraphs[i]);
    }
}

/// Whether the revision `r` is made of paragraphs of `b` that stand for the
/// paragraphs `vs` in order.
spec fn is_made_of(
    a: ArticleView,
    t: Set<Seq<char>>,
    b: ArticleView,
    r: RevisionView,
    vs: Seq<Seq<char>>,
) -> bool {
    let pids = ordered_ids(r.paragraphs, r.ordered_paragraphs);
    &&& all_filed(r.paragraphs, placed_paragraph(a, t, b))
    &&& pids.len() == vs.len()
    &&& forall|i: int| 0 <= i < vs.len() ==> stands_for(a, b, #[trigger] pids[i], vs[i])
}

proof fn lemma_made_later(
    a: ArticleView,
    t: Set<Seq<char>>,
    b: ArticleView,
    c: ArticleView,
    r: RevisionView,
    vs: Seq<Seq<char>>,
)
    requires
        is_made_of(a, t, b, r, vs),
        b.paragraphs.len() <= c.paragraphs.len(),
        forall|i: int|
            0 <= i < b.paragraphs.len() ==> (#[trigger] c.paragraphs[i]).value
                == b.paragraphs[i].value && c.paragraphs[i].hash_value
                == b.paragraphs[i].hash_value,
    ensures
        is_made_of(a, t, c, r, vs),
{
    assert forall|h: Seq<char>, pid: usize| #[trigger]
        placed_paragraph(a, t, b)(h, pid) implies placed_paragraph(a, t, c)(h, pid) by {
        if pid >= a.paragraphs.len() {
            assert(c.paragraphs[pid as int].hash_value == b.paragraphs[pid as int].hash_value);
        }
    }
    lemma_filed_weaker(r.paragraphs, placed_paragraph(a, t, b), placed_paragraph(a, t, c));
    let pids = ordered_ids(r.paragraphs, r.ordered_paragraphs);
    assert forall|i: int| 0 <= i < vs.len() implies stands_for(a, c, #[trigger] pids[i], vs[i]) by {
        assert(stands_for(a, b, pids[i], vs[i]));
        if pids[i] >= a.paragraphs.len() {
            assert(c.paragraphs[pids[i] as int].value == b.paragraphs[pids[i] as int].value);
        }
    }
}

/// The paragraph level on a whole text.
proof fn lemma_paragraph_level_passes(
    a: ArticleView,
    t: Set<Seq<char>>,
    text: Seq<char>,
    prev: RevisionView,
    curr: RevisionView,
    m: MatchedView,
)
    requires
        spells(a, t),
        holds_text(t, text),
        all_filed(prev.paragraphs, spelled_paragraph(a, t)),
        curr.paragraphs.len() == 0,
        curr.ordered_paragraphs.len() == 0,
        paragraph_level(a, text, prev, curr, m).article.paragraphs.len() <= usize::MAX,
    ensures
        paragraphs_passed(
            a,
            t,
            paragraph_level(a, text, prev, curr, m),
            solid_paragraphs(paragraphs_of(text)),
        ),
{
    let raws = paragraphs_of(text);
    let s = ParagraphState {
        article: a,
        revision: curr,
        matched: m,
        unmatched_curr: Seq::empty(),
        matched_prev: Seq::empty(),
    };
    lemma_paragraph_steps_grow(s, prev, raws, 0);
    assert(raws.take(0) =~= Seq::<Seq<char>>::empty());
    assert(curr.paragraphs =~= Seq::empty());
    assert(curr.ordered_paragraphs =~= Seq::empty());
    let n = a.paragraphs.len() as int;
    assert(new_ids(n, n) =~= Seq::<usize>::empty());
    assert(paragraphs_passed(a, t, s, solid_paragraphs(raws.take(0))));
    lemma_paragraphs_pass(a, t, s, prev, raws, 0);
}

/// The sentence level on the paragraphs that the paragraph level added.
proof fn lemma_sentence_level_outlines(
    a: ArticleView,
    t: Set<Seq<char>>,
    c: ArticleView,
    prevs: Seq<usize>,
    m: MatchedView,
)
    requires
        spells(a, t),
        are_spelled(a, t, prevs),
        c == (ArticleView { paragraphs: c.paragraphs, ..a }),
        a.paragraphs.len() <= c.paragraphs.len() <= usize::MAX,
        forall|i: int|
            0 <= i < a.paragraphs.len() ==> #[trigger] c.paragraphs[i] == a.paragraphs[i],
        forall|i: int|
            a.paragraphs.len() <= i < c.paragraphs.len() ==> is_blank_paragraph(
                t,
                #[trigger] c.paragraphs[i],
            ),
        sentence_pass(
            c,
            new_ids(a.paragraphs.len() as int, c.paragraphs.len() as int),
            prevs,
            m,
        ).article.sentences.len() <= usize::MAX,
    ensures
        ({
            let u = sentence_pass(
                c,
                new_ids(a.paragraphs.len() as int, c.paragraphs.len() as int),
                prevs,
                m,
            );
            &&& sentences_kept(a, t, c, u)
            &&& is_outlined(a, t, u.article)
        }),
{
    let n = a.paragraphs.len() as int;
    let k = a.sentences.len() as int;
    let pids = new_ids(n, c.paragraphs.len() as int);
    let s = SentenceState {
        article: c,
        matched: m,
        unmatched_curr: Seq::empty(),
        matched_prev: Seq::empty(),
        total: 0,
    };
    let u = sentence_pass(c, pids, prevs, m);
    assert(ids_below(pids, c.paragraphs.len() as int));
    lemma_sentence_paragraphs_grow(s, pids, prevs, 0);
    assert(new_ids(k, k) =~= Seq::<usize>::empty());
    assert(sentences_kept(a, t, c, s));
    assert(written_up_to(a, t, c, c, 0));
    lemma_sentence_level_passes(a, t, c, s, prevs, 0);
    let b = u.article;
    assert forall|i: int| n <= i < b.paragraphs.len() implies ({
        let p = #[trigger] b.paragraphs[i];
        &&& t.contains(p.value)
        &&& p.hash_value == md5_hex(p.value)
        &&& is_written(a, t, b, p, solid_sentences(sentences_of(p.value)))
    }) by {
        assert(is_blank_paragraph(t, c.paragraphs[i]));
        assert(b.paragraphs[i].value == c.paragraphs[i].value);
    }
}

/// What the cascade leaves of a text.
proof fn lemma_cascade_fills(
    a: ArticleView,
    t: Set<Seq<char>>,
    text: Seq<char>,
    prev: RevisionView,
    curr: RevisionView,
)
    requires
        is_linked(a),
        a.next_token_id == a.tokens.len(),
        spells(a, t),
        holds_text(t, text),
        all_filed(prev.paragraphs, spelled_paragraph(a, t)),
        curr.paragraphs.len() == 0,
        curr.ordered_paragraphs.len() == 0,
        has_room(a, text, prev, curr),
    ensures
        ({
            let (b, r, out) = authorship(a, text, prev, curr);
            &&& is_linked(b)
            &&& settled(a, b)
            &&& out.vandalism ==> b == (ArticleView {
                sentences: b.sentences,
                paragraphs: b.paragraphs,
                ..a
            })
            &&& !out.vandalism ==> {
                &&& is_filled(a, t, b)
                &&& is_made_of(a, t, b, r, solid_paragraphs(paragraphs_of(text)))
                &&& out.unmatched_paragraphs_curr == new_ids(
                    a.paragraphs.len() as int,
                    b.paragraphs.len() as int,
                )
                &&& out.unmatched_sentences_curr == new_ids(
                    a.sentences.len() as int,
                    b.sentences.len() as int,
                )
                &&& b.paragraphs.len() <= usize::MAX
                &&& b.sentences.len() <= usize::MAX
            }
        }),
{
    let m = a.sentences.len() as int;
    let vs = solid_paragraphs(paragraphs_of(text));
    let p = paragraph_level(a, text, prev, curr, nothing_matched());
    let c = p.article;
    let left = paragraphs_left(prev, p.matched);
    lemma_paragraph_level_passes(a, t, text, prev, curr, nothing_matched());
    lemma_left_spelled(a, t, prev, p.matched);
    assert(is_made_of(a, t, c, p.revision, vs));
    let u = sentence_pass(c, p.unmatched_curr, left, p.matched);
    lemma_sentence_level_outlines(a, t, c, left, p.matched);
    let d = u.article;
    lemma_outlined_linked(a, t, d);
    lemma_made_later(a, t, c, d, p.revision, vs);
    let (b, r, out) = authorship(a, text, prev, curr);
    if p.unmatched_curr.len() == 0 {
        assert(c.paragraphs =~= a.paragraphs);
        assert(c == a);
        assert(new_ids(m, m) =~= Seq::<usize>::empty());
    } else {
        let (x, y, s) = sentence_level(c, p.unmatched_curr, left, p.matched);
        if s.0.len() == 0 {
            assert(d.sentences.len() == m);
        } else {
            assert(ids_below(left, d.paragraphs.len() as int)) by {
                assert forall|i: int| 0 <= i < left.len() implies (#[trigger] left[i])
                    < d.paragraphs.len() by {
                    assert(left[i] < a.paragraphs.len());
                }
            }
            lemma_left_in_below(d, left, 0, u.matched.sentences, Seq::empty());
            assert forall|i: int| m <= i < d.sentences.len() implies (
            #[trigger] d.sentences[i]).words.len() == 0 by {
                assert(is_blank_sentence(t, d.sentences[i]));
            }
            let suspect = p.revision.ordered_paragraphs.len() > 0;
            lemma_word_level_fills(
                d,
                m,
                s.1,
                suspect,
                p.revision.id,
                p.revision.original_adds as nat,
                y.tokens,
            );
            if !out.vandalism {
                lemma_outlined_filled(a, t, d, b);
                lemma_filled_linked(a, t, b);
                lemma_made_later(a, t, d, b, p.revision, vs);
            }
        }
    }
}

pub(crate) proof fn lemma_settled_trans(a: ArticleView, b: ArticleView, c: ArticleView)
    requires
        settled(a, b),
        settled(b, c),
    ensures
        settled(a, c),
{
    assert forall|i: int| 0 <= i < a.tokens.len() implies (#[trigger] c.tokens[i]).value
        == a.tokens[i].value by {
        assert(b.tokens[i].value == a.tokens[i].value);
    }
    assert forall|i: int| 0 <= i < a.sentences.len() implies (#[trigger] c.sentences[i]).words
        == a.sentences[i].words by {
        assert(b.sentences[i].words == a.sentences[i].words);
    }
    assert forall|i: int| 0 <= i < a.paragraphs.len() implies (#[trigger] c.paragraphs[i]).sentences
        == a.paragraphs[i].sentences && c.paragraphs[i].ordered_sentences
        == a.paragraphs[i].ordered_sentences by {
        assert(b.paragraphs[i].sentences == a.paragraphs[i].sentences);
    }
}

/// Whether `b` and `a` hold the same sentences and paragraphs but for texts.
pub(crate) open spec fn same_links(a: ArticleView, b: ArticleView) -> bool {
    &&& settled(a, b)
    &&& a.tokens.len() == b.tokens.len()
    &&& a.sentences.len() == b.sentences.len()
    &&& a.paragraphs.len() == b.paragraphs.len()
}

pub(crate) proof fn lemma_same_links(a: ArticleView, b: ArticleView)
    requires
        is_linked(a),
        same_links(a, b),
    ensures
        is_linked(b),
{
    assert forall|i: int| 0 <= i < b.sentences.len() implies ids_below(
        (#[trigger] b.sentences[i]).words,
        b.tokens.len() as int,
    ) by {
        assert(ids_below(a.sentences[i].words, a.tokens.len() as int));
    }
    assert forall|i: int| 0 <= i < b.paragraphs.len() implies entries_below(
        (#[trigger] b.paragraphs[i]).sentences,
        b.sentences.len() as int,
    ) by {
        assert(entries_below(a.paragraphs[i].sentences, a.sentences.len() as int));
    }
}

proof fn lemma_paragraphs_filed_spell(
    b: ArticleView,
    t: Set<Seq<char>>,
    c: ArticleView,
    pids: Seq<usize>,
    k: int,
)
    requires
        0 <= k,
        ids_below(pids, c.paragraphs.len() as int),
        forall|i: int|
            0 <= i < pids.len() ==> paragraph_spells(
                b,
                t,
                c.paragraphs[pids[i] as int].hash_value,
                #[trigger] pids[i],
            ),
        all_filed(c.paragraphs_ht, spelled_paragraph(b, t)),
    ensures
        ({
            let d = paragraphs_filed(c, pids, k);
            &&& all_filed(d.paragraphs_ht, spelled_paragraph(b, t))
            &&& same_links(c, d)
            &&& d == (ArticleView {
                paragraphs: d.paragraphs,
                paragraphs_ht: d.paragraphs_ht,
                ..c
            })
        }),
    decreases pids.len() - k,
{
    if k < pids.len() {
        let p = c.paragraphs[pids[k] as int];
        let x = ArticleView {
            paragraphs_ht: with_id(c.paragraphs_ht, p.hash_value, pids[k]),
            ..c.set_paragraph(pids[k] as int, ParagraphView { value: Seq::empty(), ..p })
        };
        assert(spelled_paragraph(b, t)(p.hash_value, pids[k]));
        lemma_filed_more(c.paragraphs_ht, p.hash_value, pids[k], spelled_paragraph(b, t));
        assert forall|i: int| 0 <= i < pids.len() implies paragraph_spells(
            b,
            t,
            x.paragraphs[pids[i] as int].hash_value,
            #[trigger] pids[i],
        ) by {
            assert(pids[i] < c.paragraphs.len());
            assert(x.paragraphs[pids[i] as int].hash_value
                == c.paragraphs[pids[i] as int].hash_value);
        }
        lemma_paragraphs_filed_spell(b, t, x, pids, k + 1);
        assert(settled(c, x));
        lemma_settled_trans(c, x, paragraphs_filed(c, pids, k));
    }
}

proof fn lemma_sentences_filed_spell(
    b: ArticleView,
    t: Set<Seq<char>>,
    c: ArticleView,
    sids: Seq<usize>,
    k: int,
)
    requires
        0 <= k,
        ids_below(sids, c.sentences.len() as int),
        forall|i: int|
            0 <= i < sids.len() ==> sentence_spells(
                b,
                t,
                c.sentences[sids[i] as int].hash_value,
                #[trigger] sids[i],
            ),
        all_filed(c.sentences_ht, spelled_sentence(b, t)),
    ensures
        ({
            let d = sentences_filed(c, sids, k);
            &&& all_filed(d.sentences_ht, spelled_sentence(b, t))
            &&& same_links(c, d)
            &&& d == (ArticleView { sentences: d.sentences, sentences_ht: d.sentences_ht, ..c })
        }),
    decreases sids.len() - k,
{
    if k < sids.len() {
        let s = c.sentences[sids[k] as int];
        let x = ArticleView {
            sentences_ht: with_id(c.sentences_ht, s.hash_value, sids[k]),
            ..c.set_sentence(sids[k] as int, SentenceView { value: Seq::empty(), ..s })
        };
        assert(spelled_sentence(b, t)(s.hash_value, sids[k]));
        lemma_filed_more(c.sentences_ht, s.hash_value, sids[k], spelled_sentence(b, t));
        assert forall|i: int| 0 <= i < sids.len() implies sentence_spells(
            b,
            t,
            x.sentences[sids[i] as int].hash_value,
            #[trigger] sids[i],
        ) by {
            assert(sids[i] < c.sentences.len());
            assert(x.sentences[sids[i] as int].hash_value
                == c.sentences[sids[i] as int].hash_value);
        }
        lemma_sentences_filed_spell(b, t, x, sids, k + 1);
        assert(settled(c, x));
        lemma_settled_trans(c, x, sentences_filed(c, sids, k));
    }
}

/// What an article keeps from one revision to the next: its arenas fit together,
/// and all that is filed spells the texts of `t` that it stands for.
pub open spec fn is_readable(a: ArticleView, t: Set<Seq<char>>) -> bool {
    &&& is_linked(a)
    &&& a.next_token_id == a.tokens.len()
    &&& spells(a, t)
}

/// Whether what the analysis of a revision adds gets ids of its own.
pub open spec fn has_room_for(a: ArticleView, i: InputView) -> bool {
    has_room(a, lowercase(i.text), last_good(a), blank_revision(i))
}

/// The texts of the tokens that a revision reads back as.
pub open spec fn read_back(a: ArticleView, rev_id: u64) -> Seq<Seq<char>> {
    word_values(a, revision_tokens(a, a.revisions[rev_id]))
}

/// The tokens of a text: those of its paragraphs in lowercase, each without the
/// whitespace at its ends.
pub open spec fn text_tokens(text: Seq<char>) -> Seq<Seq<char>> {
    paragraph_tokens(all_trimmed(paragraphs_of(lowercase(text))))
}

/// What was stored reads the same later on.
proof fn lemma_settled_revision(
    a: ArticleView,
    b: ArticleView,
    t: Set<Seq<char>>,
    r: RevisionView,
)
    requires
        is_linked(a),
        settled(a, b),
        all_filed(r.paragraphs, spelled_paragraph(a, t)),
    ensures
        word_values(b, revision_tokens(b, r)) == word_values(a, revision_tokens(a, r)),
{
    let such = |pid: usize| pid < a.paragraphs.len();
    lemma_filed_weaker(
        r.paragraphs,
        spelled_paragraph(a, t),
        |h: Seq<char>, pid: usize| such(pid),
    );
    lemma_ordered_such(r.paragraphs, r.ordered_paragraphs, 0, such);
    let pids = ordered_ids(r.paragraphs, r.ordered_paragraphs);
    assert forall|i: int| 0 <= i < pids.len() implies (#[trigger] pids[i]) < a.paragraphs.len() by {
        assert(such(pids[i]));
    }
    lemma_settled_paragraphs(a, b, pids);
}

proof fn lemma_settled_paragraphs(a: ArticleView, b: ArticleView, pids: Seq<usize>)
    requires
        is_linked(a),
        settled(a, b),
        ids_below(pids, a.paragraphs.len() as int),
    ensures
        word_values(b, tokens_of_paragraphs(b, pids)) == word_values(
            a,
            tokens_of_paragraphs(a, pids),
        ),
    decreases pids.len(),
{
    if pids.len() > 0 {
        let less = pids.drop_last();
        assert forall|i: int| 0 <= i < less.len() implies (#[trigger] less[i])
            < a.paragraphs.len() by {
            assert(less[i] == pids[i]);
        }
        lemma_settled_paragraphs(a, b, less);
        let pid = pids[pids.len() - 1];
        lemma_settled_text(a, b, pid);
        lemma_values_add(
            a,
            tokens_of_paragraphs(a, less),
            text_words(a, a.paragraphs[pid as int]),
        );
        lemma_values_add(
            b,
            tokens_of_paragraphs(b, less),
            text_words(b, b.paragraphs[pid as int]),
        );
    } else {
        assert(word_values(b, tokens_of_paragraphs(b, pids)) =~= word_values(
            a,
            tokens_of_paragraphs(a, pids),
        ));
    }
}

/// A revision that is stored reads back as the tokens of its text, and every
/// revision stored before reads back as it did, whatever became of the new one.
/// This holds as long as the digests tell the texts filed apart.
pub proof fn stored_text_reads_back(a: ArticleView, i: InputView, t: Set<Seq<char>>)
    requires
        is_readable(a, t),
        tells_apart(t),
        holds_text(t, lowercase(i.text)),
        has_room_for(a, i),
    ensures
        ({
            let (b, outcome) = analysed(a, i);
            &&& is_readable(b, t)
            &&& outcome is Stored ==> read_back(b, i.rev_id) == text_tokens(i.text)
            &&& forall|id: u64| #[trigger]
                a.revisions.contains_key(id) && (outcome is Stored ==> id != i.rev_id)
                    ==> b.revisions.contains_key(id) && read_back(b, id) == read_back(a, id)
        }),
{
    let text = lowercase(i.text);
    let prev = last_good(a);
    let (e, outcome) = analysed(a, i);
    if a.spam_hashes.contains(content_hash(i)) || is_shrink(
        prev.length as int,
        i.text.len() as int,
        has_comment(i),
        i.minor,
    ) {
        assert(settled(a, e));
        lemma_settled_filed(a, e, t);
        lemma_same_links(a, e);
        assert forall|id: u64| #[trigger] a.revisions.contains_key(id) implies read_back(e, id)
            == read_back(a, id) by {
            lemma_settled_revision(a, e, t, a.revisions[id]);
        }
    } else {
        let (b, r, out) = authorship(a, text, prev, blank_revision(i));
        lemma_cascade_fills(a, t, text, prev, blank_revision(i));
        if out.vandalism {
            assert(settled(b, e));
            lemma_settled_trans(a, b, e);
            lemma_settled_filed(a, e, t);
            lemma_same_links(b, e);
            assert forall|id: u64| #[trigger] a.revisions.contains_key(id) implies read_back(e, id)
                == read_back(a, id) by {
                lemma_settled_revision(a, e, t, a.revisions[id]);
            }
        } else {
            let vs = solid_paragraphs(paragraphs_of(text));
            let pids = out.unmatched_paragraphs_curr;
            let sids = out.unmatched_sentences_curr;
            let c = recorded(b, out, prev.id, i.rev_id);
            let d = paragraphs_filed(c, pids, 0);
            let f = sentences_filed(d, sids, 0);
            assert(same_links(b, c));
            lemma_settled_filed(a, b, t);
            assert forall|k: int| 0 <= k < pids.len() implies paragraph_spells(
                b,
                t,
                c.paragraphs[pids[k] as int].hash_value,
                #[trigger] pids[k],
            ) by {
                let pid = pids[k];
                assert(pid == a.paragraphs.len() + k);
                lemma_placed_paragraph(a, t, b, b.paragraphs[pid as int].hash_value, pid);
            }
            lemma_paragraphs_filed_spell(b, t, c, pids, 0);
            assert forall|k: int| 0 <= k < sids.len() implies sentence_spells(
                b,
                t,
                d.sentences[sids[k] as int].hash_value,
                #[trigger] sids[k],
            ) by {
                let sid = sids[k];
                assert(sid == a.sentences.len() + k);
                lemma_placed_sentence(a, t, b, b.sentences[sid as int].hash_value, sid);
            }
            lemma_sentences_filed_spell(b, t, d, sids, 0);
            lemma_settled_trans(b, c, d);
            lemma_settled_trans(b, d, f);
            assert(settled(f, e));
            lemma_settled_trans(b, f, e);
            lemma_settled_trans(a, b, e);
            lemma_same_links(b, e);
            assert forall|h: Seq<char>, pid: usize| #[trigger]
                placed_paragraph(a, t, b)(h, pid) implies spelled_paragraph(b, t)(h, pid) by {
                lemma_placed_paragraph(a, t, b, h, pid);
            }
            lemma_filed_weaker(r.paragraphs, placed_paragraph(a, t, b), spelled_paragraph(b, t));
            lemma_stored_spells(a, t, b, e, i.rev_id, r);
            lemma_paragraphs_read(
                a,
                t,
                b,
                ordered_ids(r.paragraphs, r.ordered_paragraphs),
                vs,
            );
            lemma_tokens_filed(paragraphs_of(text));
            lemma_settled_revision(b, e, t, r);
            assert forall|id: u64| #[trigger]
                a.revisions.contains_key(id) && id != i.rev_id implies e.revisions.contains_key(id)
                && read_back(e, id) == read_back(a, id) by {
                lemma_settled_revision(a, e, t, a.revisions[id]);
            }
        }
    }
}

proof fn lemma_stored_spells(
    a: ArticleView,
    t: Set<Seq<char>>,
    b: ArticleView,
    e: ArticleView,
    rev_id: u64,
    r: RevisionView,
)
    requires
        is_linked(b),
        settled(b, e),
        e.revisions == a.revisions.insert(rev_id, r),
        all_filed(e.paragraphs_ht, spelled_paragraph(b, t)),
        all_filed(e.sentences_ht, spelled_sentence(b, t)),
        all_filed(r.paragraphs, spelled_paragraph(b, t)),
        forall|id: u64| #[trigger]
            a.revisions.contains_key(id) ==> all_filed(
                a.revisions[id].paragraphs,
                spelled_paragraph(b, t),
            ),
    ensures
        spells(e, t),
{
    assert forall|h: Seq<char>, sid: usize| #[trigger]
        spelled_sentence(b, t)(h, sid) implies spelled_sentence(e, t)(h, sid) by {
        lemma_settled_sentence(b, e, t, h, sid);
    }
    assert forall|h: Seq<char>, pid: usize| #[trigger]
        spelled_paragraph(b, t)(h, pid) implies spelled_paragraph(e, t)(h, pid) by {
        lemma_settled_paragraph(b, e, t, h, pid);
    }
    lemma_filed_weaker(e.paragraphs_ht, spelled_paragraph(b, t), spelled_paragraph(e, t));
    lemma_filed_weaker(e.sentences_ht, spelled_sentence(b, t), spelled_sentence(e, t));
    assert forall|id: u64| #[trigger] e.revisions.contains_key(id) implies all_filed(
        e.revisions[id].paragraphs,
        spelled_paragraph(e, t),
    ) by {
        if id != rev_id {
            assert(a.revisions.contains_key(id));
        }
        lemma_filed_weaker(
            e.revisions[id].paragraphs,
            spelled_paragraph(b, t),
            spelled_paragraph(e, t),
        );
    }
}

} // verus!
