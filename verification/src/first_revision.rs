//! What the first revision of an article makes: its tokens, one after the other.
use crate::buckets::bucket;
use crate::cascade::{
    authorship, is_dense, lemma_sentence_paragraphs_grow, lemma_sentence_words_below, lemma_words_added_grow,
    normalized, not_in, nothing_matched, paragraph_level, paragraph_step, paragraph_steps,
    paragraphs_left, sentence_pass, sentence_paragraphs, sentence_step, sentence_steps,
    sentence_words, word_added, words_added, words_only, ParagraphState, SentenceState,
};
use crate::outside::md5_hex;
use crate::readback::{
    all_trimmed, lemma_tokens_filed, lemma_words_filed, new_ids, solid_paragraphs, solid_sentences,
    tokens_filed, words_filed,
};
use crate::structures::{
    fresh_word, ids_below, ordered_ids, words_of, ArticleView, RevisionView, WordView,
};
use crate::text::{split_on, trimmed};
use crate::tokenize::{counted, paragraph_tokens, paragraphs_of, sentences_of};
use vstd::prelude::*;

verus! {

/// Whether an article holds nothing.
pub open spec fn is_bare(a: ArticleView) -> bool {
    &&& a.tokens.len() == 0
    &&& a.sentences.len() == 0
    &&& a.paragraphs.len() == 0
    &&& a.paragraphs_ht.len() == 0
    &&& a.sentences_ht.len() == 0
    &&& a.next_token_id == 0
}

/// Whether a revision holds nothing.
pub open spec fn is_blank(r: RevisionView) -> bool {
    &&& r.paragraphs.len() == 0
    &&& r.ordered_paragraphs.len() == 0
    &&& r.original_adds == 0
}

/// Whether all that an article holds has an id.
pub open spec fn has_ids(a: ArticleView) -> bool {
    &&& a.tokens.len() <= usize::MAX
    &&& a.sentences.len() <= usize::MAX
    &&& a.paragraphs.len() <= usize::MAX
}

/// Whether no text has whitespace at its ends.
pub open spec fn is_trimmed(vs: Seq<Seq<char>>) -> bool {
    forall|i: int| 0 <= i < vs.len() ==> trimmed(#[trigger] vs[i]) == vs[i]
}

/// The tokens that the revision `rev` makes of the texts `words` in an article that
/// has none.
pub open spec fn first_tokens(words: Seq<Seq<char>>, rev: u64) -> Seq<WordView> {
    Seq::new(words.len(), |k: int| fresh_word(k as usize, words[k], rev))
}

/// What the paragraph level keeps: every paragraph passed, of which `vs` are not
/// blank, is new.
spec fn paragraphs_new(
    a: ArticleView,
    curr: RevisionView,
    s: ParagraphState,
    vs: Seq<Seq<char>>,
) -> bool {
    let b = s.article;
    &&& b == (ArticleView { paragraphs: b.paragraphs, ..a })
    &&& b.paragraphs.len() == vs.len()
    &&& forall|i: int| 0 <= i < vs.len() ==> (#[trigger] b.paragraphs[i]).value == vs[i]
    &&& s.matched == nothing_matched()
    &&& s.matched_prev.len() == 0
    &&& s.unmatched_curr == new_ids(0, vs.len() as int)
    &&& s.revision.id == curr.id
    &&& s.revision.original_adds == curr.original_adds
    &&& s.revision.ordered_paragraphs.len() >= vs.len()
}

proof fn lemma_paragraphs_new(
    a: ArticleView,
    curr: RevisionView,
    s: ParagraphState,
    prev: RevisionView,
    raws: Seq<Seq<char>>,
    k: int,
)
    requires
        a.paragraphs_ht.len() == 0,
        prev.paragraphs.len() == 0,
        0 <= k <= raws.len(),
        paragraphs_new(a, curr, s, solid_paragraphs(raws.take(k))),
    ensures
        paragraphs_new(a, curr, paragraph_steps(s, prev, raws, k), solid_paragraphs(raws)),
    decreases raws.len() - k,
{
    if k < raws.len() {
        let next = raws.take(k + 1);
        assert(next.drop_last() =~= raws.take(k));
        assert(next.last() == raws[k]);
        let vs = solid_paragraphs(raws.take(k));
        let text = trimmed(raws[k]);
        let hash = md5_hex(text);
        let t = paragraph_step(s, prev, raws[k]);
        assert(bucket(prev.paragraphs, hash) =~= Seq::<usize>::empty());
        assert(bucket(s.article.paragraphs_ht, hash) =~= Seq::<usize>::empty());
        if text.len() > 0 {
            assert(t.article == s.article.with_paragraph(hash, text));
            assert(t.unmatched_curr =~= new_ids(0, vs.len() as int + 1));
        }
        assert(paragraphs_new(a, curr, t, solid_paragraphs(next)));
        lemma_paragraphs_new(a, curr, t, prev, raws, k + 1);
    } else {
        assert(raws.take(k) =~= raws);
    }
}

/// What the sentence level keeps: every sentence passed, the texts `vs` as they are
/// filed, is new. `c` is the article before it.
spec fn sentences_new(c: ArticleView, s: SentenceState, vs: Seq<Seq<char>>) -> bool {
    let b = s.article;
    &&& b == (ArticleView { paragraphs: b.paragraphs, sentences: b.sentences, ..c })
    &&& b.paragraphs.len() == c.paragraphs.len()
    &&& forall|i: int|
        0 <= i < c.paragraphs.len() ==> (#[trigger] b.paragraphs[i]).value
            == c.paragraphs[i].value
    &&& b.sentences.len() == vs.len()
    &&& forall|i: int| 0 <= i < vs.len() ==> (#[trigger] b.sentences[i]).value == vs[i]
    &&& s.matched == nothing_matched()
    &&& s.matched_prev.len() == 0
    &&& s.unmatched_curr == new_ids(0, vs.len() as int)
}

proof fn lemma_sentences_new(
    c: ArticleView,
    s: SentenceState,
    pid: usize,
    raws: Seq<Seq<char>>,
    k: int,
    before: Seq<Seq<char>>,
)
    requires
        c.sentences_ht.len() == 0,
        pid < c.paragraphs.len(),
        0 <= k <= raws.len(),
        sentences_new(c, s, before + solid_sentences(raws.take(k))),
    ensures
        sentences_new(
            c,
            sentence_steps(s, pid, Seq::empty(), raws, k),
            before + solid_sentences(raws),
        ),
    decreases raws.len() - k,
{
    if k < raws.len() {
        let next = raws.take(k + 1);
        assert(next.drop_last() =~= raws.take(k));
        assert(next.last() == raws[k]);
        let vs = before + solid_sentences(raws.take(k));
        let text = trimmed(raws[k]);
        let value = normalized(text);
        let hash = md5_hex(value);
        let t = sentence_step(s, pid, Seq::empty(), raws[k]);
        assert(bucket(s.article.sentences_ht, hash) =~= Seq::<usize>::empty());
        if text.len() > 0 {
            assert(before + solid_sentences(next) =~= vs.push(value));
            assert(t.unmatched_curr =~= new_ids(0, vs.len() as int + 1));
        }
        assert(sentences_new(c, t, before + solid_sentences(next)));
        lemma_sentences_new(c, t, pid, raws, k + 1, before);
    } else {
        assert(raws.take(k) =~= raws);
    }
}

/// The sentences of the paragraphs `vs` as they are filed, one after the other.
spec fn all_sentences(vs: Seq<Seq<char>>) -> Seq<Seq<char>>
    decreases vs.len(),
{
    if vs.len() == 0 {
        Seq::empty()
    } else {
        all_sentences(vs.drop_last()) + solid_sentences(sentences_of(vs.last()))
    }
}

proof fn lemma_paragraphs_cut(
    c: ArticleView,
    s: SentenceState,
    vs: Seq<Seq<char>>,
    k: int,
)
    requires
        c.sentences_ht.len() == 0,
        c.paragraphs.len() == vs.len(),
        c.paragraphs.len() <= usize::MAX,
        forall|i: int| 0 <= i < vs.len() ==> (#[trigger] c.paragraphs[i]).value == vs[i],
        0 <= k <= vs.len(),
        sentences_new(c, s, all_sentences(vs.take(k))),
    ensures
        sentences_new(
            c,
            sentence_paragraphs(s, new_ids(0, vs.len() as int), Seq::empty(), k),
            all_sentences(vs),
        ),
    decreases vs.len() - k,
{
    if k < vs.len() {
        let pids = new_ids(0, vs.len() as int);
        let next = vs.take(k + 1);
        let before = all_sentences(vs.take(k));
        let raws = sentences_of(vs[k]);
        let t = sentence_steps(s, pids[k], Seq::empty(), raws, 0);
        assert(pids[k] == k);
        assert(s.article.paragraphs[k].value == c.paragraphs[k].value);
        assert(next.drop_last() =~= vs.take(k));
        assert(next.last() == vs[k]);
        assert(before + solid_sentences(raws.take(0)) =~= before);
        lemma_sentences_new(c, s, pids[k], raws, 0, before);
        lemma_paragraphs_cut(c, t, vs, k + 1);
    } else {
        assert(vs.take(k) =~= vs);
    }
}

proof fn lemma_filed_add(x: Seq<Seq<char>>, y: Seq<Seq<char>>)
    ensures
        words_filed(x + y) == words_filed(x) + words_filed(y),
    decreases y.len(),
{
    if y.len() == 0 {
        assert(x + y =~= x);
        assert(words_filed(x) + words_filed(y) =~= words_filed(x));
    } else {
        assert((x + y).drop_last() =~= x + y.drop_last());
        lemma_filed_add(x, y.drop_last());
        assert(words_filed(x + y) =~= words_filed(x) + words_filed(y));
    }
}

/// The sentences of the paragraphs give the tokens of the paragraphs.
proof fn lemma_all_sentences(vs: Seq<Seq<char>>)
    ensures
        words_filed(all_sentences(vs)) == tokens_filed(vs),
    decreases vs.len(),
{
    if vs.len() > 0 {
        let raws = sentences_of(vs.last());
        lemma_all_sentences(vs.drop_last());
        lemma_words_filed(raws);
        lemma_filed_add(all_sentences(vs.drop_last()), solid_sentences(raws));
    }
}

/// The words of the first `k` sentences.
proof fn lemma_first_words(b: ArticleView, vs: Seq<Seq<char>>, k: int)
    requires
        0 <= k <= vs.len(),
        b.sentences.len() == vs.len(),
        b.sentences.len() <= usize::MAX,
        forall|i: int| 0 <= i < vs.len() ==> (#[trigger] b.sentences[i]).value == vs[i],
    ensures
        words_only(sentence_words(b, new_ids(0, k))) == words_filed(vs.take(k)),
    decreases k,
{
    let sids = new_ids(0, k);
    if k > 0 {
        assert(sids.drop_last() =~= new_ids(0, k - 1));
        assert(vs.take(k).drop_last() =~= vs.take(k - 1));
        lemma_first_words(b, vs, k - 1);
        assert(b.sentences[k - 1].value == vs[k - 1]);
        let head = sentence_words(b, new_ids(0, k - 1));
        let more = split_on(vs[k - 1], " "@);
        assert(words_only(sentence_words(b, sids)) =~= words_only(head) + more);
    } else {
        assert(words_only(sentence_words(b, sids)) =~= Seq::<Seq<char>>::empty());
        assert(vs.take(0) =~= Seq::<Seq<char>>::empty());
    }
}

/// Words that are all new become tokens in order.
proof fn lemma_first_tokens(a: ArticleView, ws: Seq<(usize, Seq<char>)>, k: int, rev: u64)
    requires
        0 <= k <= ws.len(),
        ws.len() <= usize::MAX,
        a.tokens == first_tokens(words_only(ws).take(k), rev),
        k < ws.len() ==> a.next_token_id == k,
    ensures
        words_added(a, ws, k, rev).tokens == first_tokens(words_only(ws), rev),
    decreases ws.len() - k,
{
    let words = words_only(ws);
    if k < ws.len() {
        let b = word_added(a, ws[k].0, ws[k].1, rev);
        assert(words[k] == ws[k].1);
        assert(b.tokens =~= first_tokens(words.take(k + 1), rev));
        lemma_first_tokens(b, ws, k + 1, rev);
    } else {
        assert(words.take(k) =~= words);
    }
}

proof fn lemma_words_keep_paragraphs(
    a: ArticleView,
    ws: Seq<(usize, Seq<char>)>,
    k: int,
    rev: u64,
)
    ensures
        words_added(a, ws, k, rev).paragraphs == a.paragraphs,
    decreases ws.len() - k,
{
    if 0 <= k < ws.len() {
        lemma_words_keep_paragraphs(word_added(a, ws[k].0, ws[k].1, rev), ws, k + 1, rev);
    }
}

/// The sentence level of a first revision: every sentence is new and has an id.
proof fn lemma_first_sentences(
    a: ArticleView,
    text: Seq<char>,
    prev: RevisionView,
    curr: RevisionView,
)
    requires
        is_bare(a),
        is_blank(prev),
        has_ids(authorship(a, text, prev, curr).0),
        paragraphs_new(
            a,
            curr,
            paragraph_level(a, text, prev, curr, nothing_matched()),
            solid_paragraphs(paragraphs_of(text)),
        ),
        solid_paragraphs(paragraphs_of(text)).len() > 0,
    ensures
        ({
            let p = paragraph_level(a, text, prev, curr, nothing_matched());
            let u = sentence_pass(p.article, p.unmatched_curr, Seq::empty(), p.matched);
            &&& sentences_new(p.article, u, all_sentences(solid_paragraphs(paragraphs_of(text))))
            &&& u.article.sentences.len() <= usize::MAX
        }),
{
    let none = Seq::<usize>::empty();
    let vs = solid_paragraphs(paragraphs_of(text));
    let p = paragraph_level(a, text, prev, curr, nothing_matched());
    let c = p.article;
    let u = sentence_pass(c, p.unmatched_curr, none, p.matched);
    let s = SentenceState {
        article: c,
        matched: p.matched,
        unmatched_curr: none,
        matched_prev: none,
        total: 0,
    };
    let b = authorship(a, text, prev, curr).0;
    let ws = sentence_words(u.article, u.unmatched_curr);
    assert(ordered_ids(prev.paragraphs, prev.ordered_paragraphs) =~= none);
    assert(paragraphs_left(prev, p.matched) =~= none);
    assert(not_in(words_of(u.article.sentences, none), u.matched.tokens) =~= none);
    assert(b == u.article || b == words_added(u.article, ws, 0, p.revision.id));
    assert(ids_below(p.unmatched_curr, c.paragraphs.len() as int));
    lemma_sentence_paragraphs_grow(s, p.unmatched_curr, none, 0);
    lemma_words_keep_paragraphs(u.article, ws, 0, p.revision.id);
    assert(c.paragraphs.len() <= b.paragraphs.len());
    assert(vs.take(0) =~= Seq::<Seq<char>>::empty());
    assert(none =~= new_ids(0, 0));
    lemma_paragraphs_cut(c, s, vs, 0);
    assert(ids_below(u.unmatched_curr, u.article.sentences.len() as int));
    lemma_sentence_words_below(u.article, u.unmatched_curr);
    lemma_words_added_grow(u.article, ws, 0, p.revision.id);
    assert(u.article.sentences.len() <= b.sentences.len());
}

/// The first revision of an article makes the tokens of its text, in order and each
/// its own, unless it is vandalism: the `k`th token has the id `k`, and the revision
/// introduced all of them and counts them. It is vandalism just where its words recur too
/// often. Nothing is matched. Where no paragraph
/// has whitespace at its ends, these are the tokens that the text is cut into.
pub proof fn first_revision_makes_its_tokens(
    a: ArticleView,
    text: Seq<char>,
    prev: RevisionView,
    curr: RevisionView,
)
    requires
        is_bare(a),
        is_blank(prev),
        is_blank(curr),
        has_ids(authorship(a, text, prev, curr).0),
    ensures
        ({
            let (b, r, out) = authorship(a, text, prev, curr);
            let words = paragraph_tokens(all_trimmed(paragraphs_of(text)));
            !out.vandalism ==> {
                &&& b.tokens == first_tokens(words, curr.id)
                &&& r.original_adds == b.tokens.len()
                &&& out.matched_token_ids == Set::<usize>::empty()
                &&& out.matched_paragraphs_prev.len() == 0
                &&& out.matched_sentences_prev.len() == 0
                &&& out.matched_words_prev.len() == 0
            }
        }),
        authorship(a, text, prev, curr).2.vandalism == is_dense(
            paragraph_tokens(all_trimmed(paragraphs_of(text))),
        ),
        is_trimmed(paragraphs_of(text)) && !authorship(a, text, prev, curr).2.vandalism
            ==> authorship(a, text, prev, curr).0.tokens == first_tokens(
            paragraph_tokens(paragraphs_of(text)),
            curr.id,
        ),
{
    let raws = paragraphs_of(text);
    let vs = solid_paragraphs(raws);
    let none = Seq::<usize>::empty();
    let p = paragraph_level(a, text, prev, curr, nothing_matched());
    let s = ParagraphState {
        article: a,
        revision: curr,
        matched: nothing_matched(),
        unmatched_curr: none,
        matched_prev: none,
    };
    let (b, r, out) = authorship(a, text, prev, curr);
    assert(raws.take(0) =~= Seq::<Seq<char>>::empty());
    assert(none =~= new_ids(0, 0));
    lemma_paragraphs_new(a, curr, s, prev, raws, 0);
    lemma_tokens_filed(raws);
    lemma_all_sentences(vs);
    let left = paragraphs_left(prev, p.matched);
    assert(ordered_ids(prev.paragraphs, prev.ordered_paragraphs) =~= none);
    assert(left =~= none);
    if p.unmatched_curr.len() == 0 {
        assert(vs.len() == 0);
        assert(b.tokens =~= first_tokens(tokens_filed(vs), curr.id));
    } else {
        let u = sentence_pass(p.article, p.unmatched_curr, none, nothing_matched());
        lemma_first_sentences(a, text, prev, curr);
        let lines = all_sentences(vs);
        if u.unmatched_curr.len() == 0 {
            assert(b.tokens =~= first_tokens(words_filed(lines), curr.id));
        } else {
            let ws = sentence_words(u.article, u.unmatched_curr);
            lemma_first_words(u.article, lines, lines.len() as int);
            assert(lines.take(lines.len() as int) =~= lines);
            assert(words_only(ws) == words_filed(lines));
            assert(not_in(words_of(u.article.sentences, none), Set::empty()) =~= none);
            if ws.len() == 0 {
                assert(b.tokens =~= first_tokens(words_filed(lines), curr.id));
            } else if !out.vandalism {
                lemma_sentence_words_below(u.article, u.unmatched_curr);
                lemma_words_added_grow(u.article, ws, 0, curr.id);
                assert(u.article.tokens =~= first_tokens(words_only(ws).take(0), curr.id));
                lemma_first_tokens(u.article, ws, 0, curr.id);
            }
        }
    }
    let words = paragraph_tokens(all_trimmed(raws));
    if words.len() == 0 {
        assert(counted(words) =~= Seq::empty());
        assert(!is_dense(words));
    }
    if is_trimmed(raws) {
        assert(all_trimmed(raws) =~= raws);
    }
}

} // verus!
