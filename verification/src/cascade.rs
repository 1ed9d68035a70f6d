//! The matching of a revision against the past: paragraphs first, then the
//! sentences of the paragraphs left over, then the tokens of the sentences left
//! over.
use crate::buckets::{
    all_ids, bucket, lemma_position, position, with_id, Entries,
};
use crate::diff::distinct;
use crate::differ::{differ_compare, steps, transcript, DiffOp};
use crate::matcher::{count_of, Ratio};
use crate::outside::md5_hex;
use crate::spam::TOKEN_DENSITY_LIMIT;
use crate::structures::{
    arenas_grow, entries_below, ids_below, ids_in_order, lemma_all_ids_below, lemma_bucket_below,
    lemma_grow_refl, lemma_grow_trans, lemma_ordered_below, lemma_prefix_push, lemma_prefix_self,
    lemma_words_below, ordered_ids, same_tables, same_word, tokens_added, words_of, Article,
    ArticleView, MatchedSets, MatchedView, ParagraphId, ParagraphView, RevId, Revision,
    RevisionView, SentenceId, SentenceView, TokenId, WordView,
};
use crate::text::{
    chars_of, join_text, joined, split_on, split_text, texts, trim_text, trimmed,
};
use crate::tokenize::{
    avg_word_freq, counted, hash_md5, is_structural, paragraphs_of, sentences_of,
    split_paragraphs, split_sentences, split_tokens, tokens_of, word_frequency,
};
use crate::transcript::Step;
use std::collections::HashSet;
use vstd::prelude::*;

verus! {

broadcast use vstd::std_specs::hash::group_hash_axioms;

/// Outcome of the paragraph level.
pub struct ParagraphAnalysis {
    /// Paragraphs allocated for this revision.
    pub unmatched_paragraphs_curr: Vec<ParagraphId>,
    /// Paragraphs of the previous revision that found no match.
    pub unmatched_paragraphs_prev: Vec<ParagraphId>,
    /// Earlier paragraphs that were matched, or used up by other matches.
    pub matched_paragraphs_prev: Vec<ParagraphId>,
}

/// Outcome of the sentence level.
pub struct SentenceAnalysis {
    pub unmatched_sentences_curr: Vec<SentenceId>,
    pub unmatched_sentences_prev: Vec<SentenceId>,
    pub matched_sentences_prev: Vec<SentenceId>,
    /// How many sentences were looked at.
    pub total_sentences: u128,
}

/// Outcome of the whole cascade.
pub struct CascadeOutput {
    pub matched_paragraphs_prev: Vec<ParagraphId>,
    pub unmatched_paragraphs_prev: Vec<ParagraphId>,
    pub matched_sentences_prev: Vec<SentenceId>,
    pub unmatched_sentences_prev: Vec<SentenceId>,
    pub matched_words_prev: Vec<TokenId>,
    pub unmatched_paragraphs_curr: Vec<ParagraphId>,
    pub unmatched_sentences_curr: Vec<SentenceId>,
    /// Every token matched at any level.
    pub matched_token_ids: HashSet<TokenId>,
    /// Whether the density of the text marks it as vandalism.
    pub vandalism: bool,
}

/// The tokens of a paragraph, hash by hash.
pub open spec fn paragraph_words(a: ArticleView, pid: usize) -> Seq<usize> {
    words_of(a.sentences, all_ids(a.paragraphs[pid as int].sentences))
}

/// Whether some of the tokens were matched.
pub open spec fn any_matched(ws: Seq<usize>, tokens: Set<usize>) -> bool {
    exists|i: int| 0 <= i < ws.len() && tokens.contains(#[trigger] ws[i])
}

/// Whether all of the tokens were matched.
pub open spec fn all_matched(ws: Seq<usize>, tokens: Set<usize>) -> bool {
    forall|i: int| 0 <= i < ws.len() ==> tokens.contains(#[trigger] ws[i])
}

/// What was matched once a paragraph is matched as a whole.
pub open spec fn paragraph_taken(a: ArticleView, m: MatchedView, pid: usize) -> MatchedView {
    MatchedView {
        paragraphs: m.paragraphs.insert(pid),
        sentences: m.sentences.union(all_ids(a.paragraphs[pid as int].sentences).to_set()),
        tokens: m.tokens.union(paragraph_words(a, pid).to_set()),
    }
}

/// Looks through the paragraphs of a bucket from position `k` on. One that is
/// matched is passed over. One with no matched token is taken. One whose tokens
/// are all matched is used up. Returns what was matched, the paragraphs taken or
/// used up so far, and the paragraph taken.
pub open spec fn scan_paragraphs(
    a: ArticleView,
    bucket: Seq<usize>,
    k: int,
    m: MatchedView,
    past: Seq<usize>,
) -> (MatchedView, Seq<usize>, Option<usize>)
    decreases bucket.len() - k,
{
    if k < 0 || k >= bucket.len() {
        (m, past, None)
    } else {
        let pid = bucket[k];
        let ws = paragraph_words(a, pid);
        if m.paragraphs.contains(pid) {
            scan_paragraphs(a, bucket, k + 1, m, past)
        } else if !any_matched(ws, m.tokens) {
            (paragraph_taken(a, m, pid), past.push(pid), Some(pid))
        } else if all_matched(ws, m.tokens) {
            scan_paragraphs(
                a,
                bucket,
                k + 1,
                MatchedView { paragraphs: m.paragraphs.insert(pid), ..m },
                past.push(pid),
            )
        } else {
            scan_paragraphs(a, bucket, k + 1, m, past)
        }
    }
}

/// Looks for a paragraph with the given hash: in the previous revision, then
/// among all paragraphs stored.
pub open spec fn find_paragraph(
    a: ArticleView,
    prev: RevisionView,
    hash: Seq<char>,
    m: MatchedView,
    past: Seq<usize>,
) -> (MatchedView, Seq<usize>, Option<usize>) {
    let first = scan_paragraphs(a, bucket(prev.paragraphs, hash), 0, m, past);
    if first.2 is Some {
        first
    } else {
        scan_paragraphs(a, bucket(a.paragraphs_ht, hash), 0, first.0, first.1)
    }
}

/// The state of the paragraph level.
#[verifier::ext_equal]
pub struct ParagraphState {
    pub article: ArticleView,
    pub revision: RevisionView,
    pub matched: MatchedView,
    pub unmatched_curr: Seq<usize>,
    pub matched_prev: Seq<usize>,
}

/// The revision with one more paragraph.
pub open spec fn revision_with(r: RevisionView, hash: Seq<char>, pid: usize) -> RevisionView {
    RevisionView {
        paragraphs: with_id(r.paragraphs, hash, pid),
        ordered_paragraphs: r.ordered_paragraphs.push(hash),
        ..r
    }
}

/// One paragraph of the text: an earlier paragraph is reused, or one is
/// allocated. A blank one is skipped.
pub open spec fn paragraph_step(s: ParagraphState, prev: RevisionView, raw: Seq<char>) -> ParagraphState {
    let text = trimmed(raw);
    let hash = md5_hex(text);
    if text.len() == 0 {
        s
    } else {
        let (m, past, found) = find_paragraph(s.article, prev, hash, s.matched, s.matched_prev);
        match found {
            Some(pid) => ParagraphState {
                revision: revision_with(s.revision, hash, pid),
                matched: m,
                matched_prev: past,
                ..s
            },
            None => {
                let pid = s.article.paragraphs.len() as usize;
                ParagraphState {
                    article: s.article.with_paragraph(hash, text),
                    revision: revision_with(s.revision, hash, pid),
                    matched: m,
                    unmatched_curr: s.unmatched_curr.push(pid),
                    matched_prev: past,
                }
            },
        }
    }
}

/// The paragraphs of the text from position `k` on.
pub open spec fn paragraph_steps(
    s: ParagraphState,
    prev: RevisionView,
    raws: Seq<Seq<char>>,
    k: int,
) -> ParagraphState
    decreases raws.len() - k,
{
    if k < 0 || k >= raws.len() {
        s
    } else {
        paragraph_steps(paragraph_step(s, prev, raws[k]), prev, raws, k + 1)
    }
}

/// The ids, in order, that are not in the set.
pub open spec fn not_in(ids: Seq<usize>, set: Set<usize>) -> Seq<usize>
    decreases ids.len(),
{
    if ids.len() == 0 {
        Seq::empty()
    } else if set.contains(ids.last()) {
        not_in(ids.drop_last(), set)
    } else {
        not_in(ids.drop_last(), set).push(ids.last())
    }
}

/// Whether some and whether all of the tokens were matched.
fn words_status(ws: &Vec<TokenId>, matched: &MatchedSets) -> (r: (bool, bool))
    ensures
        r.0 == any_matched(ws@, matched@.tokens),
        r.1 == all_matched(ws@, matched@.tokens),
{
    let mut one = false;
    let mut all = true;
    let mut i: usize = 0;
    while i < ws.len()
        invariant
            i <= ws@.len(),
            one == exists|k: int| 0 <= k < i && matched@.tokens.contains(#[trigger] ws@[k]),
            all == forall|k: int| 0 <= k < i ==> matched@.tokens.contains(#[trigger] ws@[k]),
        decreases ws@.len() - i,
    {
        if matched.tokens.contains(&ws[i]) {
            one = true;
        } else {
            all = false;
        }
        i = i + 1;
    }
    (one, all)
}

/// Whether some and whether all of a paragraph's tokens were matched.
fn check_paragraph_words_status(article: &Article, pid: ParagraphId, matched: &MatchedSets) -> (r: (
    bool,
    bool,
))
    requires
        article@.arenas_ok(),
        pid < article@.paragraphs.len(),
    ensures
        r.0 == any_matched(paragraph_words(article@, pid), matched@.tokens),
        r.1 == all_matched(paragraph_words(article@, pid), matched@.tokens),
{
    let sids = article.paragraph(pid).sentences.flat_ids();
    proof {
        lemma_all_ids_below(
            article@.paragraphs[pid as int].sentences,
            article@.sentences.len() as int,
        );
    }
    let ws = article.words_in(&sids);
    words_status(&ws, matched)
}

/// Adds ids to a set.
fn insert_all(set: &mut HashSet<usize>, ids: &Vec<usize>)
    ensures
        final(set)@ == old(set)@.union(ids@.to_set()),
{
    let mut i: usize = 0;
    proof {
        assert(set@.union(ids@.take(0).to_set()) =~= set@);
    }
    while i < ids.len()
        invariant
            i <= ids@.len(),
            set@ == old(set)@.union(ids@.take(i as int).to_set()),
        decreases ids@.len() - i,
    {
        set.insert(ids[i]);
        proof {
            let t0 = ids@.take(i as int);
            let t1 = ids@.take(i + 1);
            assert forall|x: usize| t1.to_set().contains(x) <==> t0.to_set().contains(x) || x
                == ids@[i as int] by {
                if t0.contains(x) {
                    let k = choose|k: int| 0 <= k < t0.len() && t0[k] == x;
                    assert(t1[k] == x);
                }
                if t1.contains(x) {
                    let k = choose|k: int| 0 <= k < t1.len() && t1[k] == x;
                    if k < i {
                        assert(t0[k] == x);
                    }
                }
                assert(t1[i as int] == ids@[i as int]);
            }
            assert(old(set)@.union(t1.to_set()) =~= old(set)@.union(t0.to_set()).insert(
                ids@[i as int],
            ));
        }
        i = i + 1;
    }
    proof {
        assert(ids@.take(i as int) =~= ids@);
    }
}

/// Marks a paragraph and all in it as matched.
fn record_full_paragraph_match(
    article: &Article,
    pid: ParagraphId,
    matched: &mut MatchedSets,
    past: &mut Vec<ParagraphId>,
)
    requires
        article@.arenas_ok(),
        pid < article@.paragraphs.len(),
    ensures
        final(matched)@ == paragraph_taken(article@, old(matched)@, pid),
        final(past)@ == old(past)@.push(pid),
{
    let sids = article.paragraph(pid).sentences.flat_ids();
    proof {
        lemma_all_ids_below(
            article@.paragraphs[pid as int].sentences,
            article@.sentences.len() as int,
        );
    }
    let ws = article.words_in(&sids);
    matched.paragraphs.insert(pid);
    insert_all(&mut matched.sentences, &sids);
    insert_all(&mut matched.tokens, &ws);
    past.push(pid);
}

/// Looks through a bucket of paragraphs.
fn scan_paragraph_bucket(
    article: &Article,
    ids: &Vec<ParagraphId>,
    matched: &mut MatchedSets,
    past: &mut Vec<ParagraphId>,
) -> (found: Option<ParagraphId>)
    requires
        article@.arenas_ok(),
        ids_below(ids@, article@.paragraphs.len() as int),
    ensures
        (final(matched)@, final(past)@, found) == scan_paragraphs(
            article@,
            ids@,
            0,
            old(matched)@,
            old(past)@,
        ),
        found is Some ==> found->0 < article@.paragraphs.len(),
{
    let ghost a = article@;
    let ghost goal = scan_paragraphs(a, ids@, 0, matched@, past@);
    let mut k: usize = 0;
    while k < ids.len()
        invariant
            k <= ids@.len(),
            a == article@,
            a.arenas_ok(),
            ids_below(ids@, a.paragraphs.len() as int),
            scan_paragraphs(a, ids@, k as int, matched@, past@) == goal,
            goal == scan_paragraphs(a, ids@, 0, old(matched)@, old(past)@),
        decreases ids@.len() - k,
    {
        let pid = ids[k];
        if !matched.paragraphs.contains(&pid) {
            let (one, all) = check_paragraph_words_status(article, pid, matched);
            if !one {
                record_full_paragraph_match(article, pid, matched, past);
                return Some(pid);
            } else if all {
                let ghost m0 = matched@;
                matched.paragraphs.insert(pid);
                past.push(pid);
                proof {
                    assert(matched@ =~= MatchedView { paragraphs: m0.paragraphs.insert(pid), ..m0 });
                }
            }
        }
        k = k + 1;
    }
    None
}

/// Files a paragraph with the revision.
fn add_paragraph_to_revision(revision: &mut Revision, hash: &String, pid: ParagraphId)
    ensures
        final(revision)@ == revision_with(old(revision)@, hash@, pid),
{
    let ghost r0 = revision@;
    let ghost o0 = revision.ordered_paragraphs@;
    revision.paragraphs.push(hash, pid);
    revision.ordered_paragraphs.push(hash.clone());
    proof {
        assert(texts(revision.ordered_paragraphs@) =~= texts(o0).push(hash@));
        assert(revision@ =~= revision_with(r0, hash@, pid));
    }
}

impl ParagraphState {
    /// What is held between two paragraphs of the text.
    pub open spec fn ok(self) -> bool {
        &&& self.article.arenas_ok()
        &&& self.article.holds_revision(self.revision)
        &&& ids_below(self.unmatched_curr, self.article.paragraphs.len() as int)
        &&& ids_below(self.matched_prev, self.article.paragraphs.len() as int)
    }
}

proof fn lemma_with_id_below(e: Entries, k: Seq<char>, id: usize, n: int)
    requires
        entries_below(e, n),
        id < n,
    ensures
        entries_below(with_id(e, k, id), n),
{
    lemma_position(e, k);
    lemma_bucket_below(e, k, n);
    let f = with_id(e, k, id);
    assert forall|i: int| 0 <= i < f.len() implies ids_below((#[trigger] f[i]).1, n) by {
        if i < e.len() && i != position(e, k) {
            assert(f[i] == e[i]);
        }
    }
}

proof fn lemma_below_more(ids: Seq<usize>, n: int, m: int)
    requires
        ids_below(ids, n),
        n <= m,
    ensures
        ids_below(ids, m),
{
    assert forall|i: int| 0 <= i < ids.len() implies (#[trigger] ids[i]) < m by {
        assert(ids[i] < n);
    }
}

proof fn lemma_entries_more(e: Entries, n: int, m: int)
    requires
        entries_below(e, n),
        n <= m,
    ensures
        entries_below(e, m),
{
    assert forall|i: int| 0 <= i < e.len() implies ids_below((#[trigger] e[i]).1, m) by {
        lemma_below_more(e[i].1, n, m);
    }
}

/// Adding a paragraph keeps the arenas fitting together.
proof fn lemma_paragraph_added(a: ArticleView, hash: Seq<char>, value: Seq<char>)
    requires
        a.arenas_ok(),
    ensures
        a.with_paragraph(hash, value).arenas_ok(),
{
    let b = a.with_paragraph(hash, value);
    lemma_entries_more(a.paragraphs_ht, a.paragraphs.len() as int, b.paragraphs.len() as int);
    assert forall|i: int| 0 <= i < b.paragraphs.len() implies entries_below(
        (#[trigger] b.paragraphs[i]).sentences,
        b.sentences.len() as int,
    ) by {
        if i < a.paragraphs.len() {
            assert(b.paragraphs[i] == a.paragraphs[i]);
        }
    }
}

proof fn lemma_scan_below(
    a: ArticleView,
    ids: Seq<usize>,
    k: int,
    m: MatchedView,
    past: Seq<usize>,
    n: int,
)
    requires
        ids_below(ids, n),
        ids_below(past, n),
        0 <= k,
    ensures
        ids_below(scan_paragraphs(a, ids, k, m, past).1, n),
        scan_paragraphs(a, ids, k, m, past).2 is Some ==> scan_paragraphs(a, ids, k, m, past).2->0
            < n,
    decreases ids.len() - k,
{
    if k < ids.len() {
        let pid = ids[k];
        let ws = paragraph_words(a, pid);
        if m.paragraphs.contains(pid) {
            lemma_scan_below(a, ids, k + 1, m, past, n);
        } else if !any_matched(ws, m.tokens) {
        } else if all_matched(ws, m.tokens) {
            lemma_scan_below(
                a,
                ids,
                k + 1,
                MatchedView { paragraphs: m.paragraphs.insert(pid), ..m },
                past.push(pid),
                n,
            );
        } else {
            lemma_scan_below(a, ids, k + 1, m, past, n);
        }
    }
}

/// A paragraph of the text keeps what is held between paragraphs.
proof fn lemma_paragraph_step_ok(s: ParagraphState, prev: RevisionView, raw: Seq<char>)
    requires
        s.ok(),
        s.article.holds_revision(prev),
        paragraph_step(s, prev, raw).article.paragraphs.len() <= usize::MAX,
    ensures
        paragraph_step(s, prev, raw).ok(),
        paragraph_step(s, prev, raw).article.holds_revision(prev),
{
    let a = s.article;
    let n = a.paragraphs.len() as int;
    let text = trimmed(raw);
    let hash = md5_hex(text);
    if text.len() > 0 {
        let b1 = bucket(prev.paragraphs, hash);
        let b2 = bucket(a.paragraphs_ht, hash);
        lemma_bucket_below(prev.paragraphs, hash, n);
        lemma_bucket_below(a.paragraphs_ht, hash, n);
        lemma_scan_below(a, b1, 0, s.matched, s.matched_prev, n);
        let first = scan_paragraphs(a, b1, 0, s.matched, s.matched_prev);
        lemma_scan_below(a, b2, 0, first.0, first.1, n);
        let (m, past, found) = find_paragraph(a, prev, hash, s.matched, s.matched_prev);
        match found {
            Some(pid) => {
                lemma_with_id_below(s.revision.paragraphs, hash, pid, n);
            },
            None => {
                lemma_paragraph_added(a, hash, text);
                lemma_entries_more(s.revision.paragraphs, n, n + 1);
                lemma_with_id_below(s.revision.paragraphs, hash, n as usize, n + 1);
                lemma_entries_more(prev.paragraphs, n, n + 1);
                lemma_below_more(s.unmatched_curr, n, n + 1);
                lemma_below_more(past, n, n + 1);
            },
        }
    }
}

impl View for ParagraphAnalysis {
    type V = (Seq<usize>, Seq<usize>, Seq<usize>);

    /// The unmatched current, the unmatched previous and the matched paragraphs.
    open spec fn view(&self) -> (Seq<usize>, Seq<usize>, Seq<usize>) {
        (
            self.unmatched_paragraphs_curr@,
            self.unmatched_paragraphs_prev@,
            self.matched_paragraphs_prev@,
        )
    }
}

/// The paragraph level on a whole text.
pub open spec fn paragraph_level(
    a: ArticleView,
    text: Seq<char>,
    prev: RevisionView,
    curr: RevisionView,
    m: MatchedView,
) -> ParagraphState {
    paragraph_steps(
        ParagraphState {
            article: a,
            revision: curr,
            matched: m,
            unmatched_curr: Seq::empty(),
            matched_prev: Seq::empty(),
        },
        prev,
        paragraphs_of(text),
        0,
    )
}

/// The paragraphs of the previous revision that are not matched.
pub open spec fn paragraphs_left(prev: RevisionView, m: MatchedView) -> Seq<usize> {
    not_in(ordered_ids(prev.paragraphs, prev.ordered_paragraphs), m.paragraphs)
}

/// The ids, in order, that are not in the set.
fn keep_unmatched(ids: &Vec<usize>, set: &HashSet<usize>) -> (r: Vec<usize>)
    ensures
        r@ == not_in(ids@, set@),
        forall|n: int| ids_below(ids@, n) ==> #[trigger] ids_below(r@, n),
{
    let mut r: Vec<usize> = Vec::new();
    let mut i: usize = 0;
    while i < ids.len()
        invariant
            i <= ids@.len(),
            r@ == not_in(ids@.take(i as int), set@),
            forall|n: int| ids_below(ids@, n) ==> #[trigger] ids_below(r@, n),
        decreases ids@.len() - i,
    {
        proof {
            assert(ids@.take(i + 1).drop_last() =~= ids@.take(i as int));
            assert(ids@.take(i + 1).last() == ids@[i as int]);
        }
        if !set.contains(&ids[i]) {
            let ghost r0 = r@;
            r.push(ids[i]);
            proof {
                assert forall|n: int| ids_below(ids@, n) implies #[trigger] ids_below(r@, n) by {
                    assert(ids_below(r0, n));
                    assert(ids@[i as int] < n);
                }
            }
        }
        i = i + 1;
    }
    proof {
        assert(ids@.take(i as int) =~= ids@);
    }
    r
}

/// Matches the paragraphs of a text against the previous revision and the past.
pub fn analyse_paragraphs_in_revision(
    article: &mut Article,
    text_curr: &str,
    revision_prev: &Revision,
    revision_curr: &mut Revision,
    matched: &mut MatchedSets,
) -> (analysis: ParagraphAnalysis)
    requires
        old(article)@.arenas_ok(),
        old(article)@.holds_revision(revision_prev@),
        old(article)@.holds_revision(old(revision_curr)@),
    ensures
        ({
            let s = paragraph_level(
                old(article)@,
                text_curr@,
                revision_prev@,
                old(revision_curr)@,
                old(matched)@,
            );
            &&& final(article)@ == s.article
            &&& final(revision_curr)@ == s.revision
            &&& final(matched)@ == s.matched
            &&& analysis@ == (
                s.unmatched_curr,
                paragraphs_left(revision_prev@, s.matched),
                s.matched_prev,
            )
            &&& s.ok()
            &&& ids_below(
                analysis.unmatched_paragraphs_prev@,
                final(article)@.paragraphs.len() as int,
            )
            &&& final(article)@.holds_revision(revision_prev@)
        }),
{
    let ghost prev = revision_prev@;
    let raws = split_paragraphs(text_curr);
    let ghost rv = texts(raws@);
    let mut unmatched: Vec<usize> = Vec::new();
    let mut past: Vec<usize> = Vec::new();
    let ghost goal = paragraph_level(
        article@,
        text_curr@,
        prev,
        revision_curr@,
        matched@,
    );
    let mut k: usize = 0;
    proof {
        assert(unmatched@ =~= Seq::empty());
        assert(past@ =~= Seq::empty());
    }
    while k < raws.len()
        invariant
            k <= raws@.len(),
            rv == texts(raws@),
            prev == revision_prev@,
            article@.holds_revision(prev),
            (ParagraphState {
                article: article@,
                revision: revision_curr@,
                matched: matched@,
                unmatched_curr: unmatched@,
                matched_prev: past@,
            }).ok(),
            paragraph_steps(
                (ParagraphState {
                    article: article@,
                    revision: revision_curr@,
                    matched: matched@,
                    unmatched_curr: unmatched@,
                    matched_prev: past@,
                }),
                prev,
                rv,
                k as int,
            ) == goal,
        decreases raws@.len() - k,
    {
        let ghost s0 = ParagraphState {
            article: article@,
            revision: revision_curr@,
            matched: matched@,
            unmatched_curr: unmatched@,
            matched_prev: past@,
        };
        let n: usize = article.paragraphs.len();
        let text = trim_text(raws[k].as_str());
        if !text.as_str().is_empty() {
            let hash = hash_md5(text.as_str());
            let first = revision_prev.paragraphs.ids(hash.as_str());
            proof {
                lemma_bucket_below(prev.paragraphs, hash@, n as int);
                lemma_bucket_below(article@.paragraphs_ht, hash@, n as int);
            }
            let mut found = scan_paragraph_bucket(article, &first, matched, &mut past);
            if found.is_none() {
                let second = article.paragraphs_ht.ids(hash.as_str());
                found = scan_paragraph_bucket(article, &second, matched, &mut past);
            }
            match found {
                Some(pid) => {
                    add_paragraph_to_revision(revision_curr, &hash, pid);
                },
                None => {
                    let pid = article.alloc_paragraph(hash.clone(), text);
                    add_paragraph_to_revision(revision_curr, &hash, pid);
                    unmatched.push(pid);
                },
            }
        }
        proof {
            let s1 = ParagraphState {
                article: article@,
                revision: revision_curr@,
                matched: matched@,
                unmatched_curr: unmatched@,
                matched_prev: past@,
            };
            assert(s1 =~= paragraph_step(s0, prev, rv[k as int]));
            assert(s1.article.paragraphs.len() == article.paragraphs.len());
            lemma_paragraph_step_ok(s0, prev, rv[k as int]);
        }
        k = k + 1;
    }
    let ids = ids_in_order(&revision_prev.paragraphs, &revision_prev.ordered_paragraphs);
    proof {
        lemma_ordered_below(
            prev.paragraphs,
            prev.ordered_paragraphs,
            0,
            article@.paragraphs.len() as int,
        );
    }
    let left = keep_unmatched(&ids, &matched.paragraphs);
    ParagraphAnalysis {
        unmatched_paragraphs_curr: unmatched,
        unmatched_paragraphs_prev: left,
        matched_paragraphs_prev: past,
    }
}

/// What was matched once a sentence is matched as a whole.
pub open spec fn sentence_taken(a: ArticleView, m: MatchedView, sid: usize) -> MatchedView {
    MatchedView {
        sentences: m.sentences.insert(sid),
        tokens: m.tokens.union(a.sentences[sid as int].words.to_set()),
        ..m
    }
}

/// Looks through the sentences of a bucket from position `k` on, as
/// [`scan_paragraphs`] does through paragraphs.
pub open spec fn scan_sentences(
    a: ArticleView,
    bucket: Seq<usize>,
    k: int,
    m: MatchedView,
    past: Seq<usize>,
) -> (MatchedView, Seq<usize>, Option<usize>)
    decreases bucket.len() - k,
{
    if k < 0 || k >= bucket.len() {
        (m, past, None)
    } else {
        let sid = bucket[k];
        let ws = a.sentences[sid as int].words;
        if m.sentences.contains(sid) {
            scan_sentences(a, bucket, k + 1, m, past)
        } else if !any_matched(ws, m.tokens) {
            (sentence_taken(a, m, sid), past.push(sid), Some(sid))
        } else if all_matched(ws, m.tokens) {
            scan_sentences(
                a,
                bucket,
                k + 1,
                MatchedView { sentences: m.sentences.insert(sid), ..m },
                past.push(sid),
            )
        } else {
            scan_sentences(a, bucket, k + 1, m, past)
        }
    }
}

/// Looks for a sentence with the given hash in the paragraphs `pids` from
/// position `k` on.
pub open spec fn scan_in_paragraphs(
    a: ArticleView,
    pids: Seq<usize>,
    k: int,
    hash: Seq<char>,
    m: MatchedView,
    past: Seq<usize>,
) -> (MatchedView, Seq<usize>, Option<usize>)
    decreases pids.len() - k,
{
    if k < 0 || k >= pids.len() {
        (m, past, None)
    } else {
        let here = scan_sentences(
            a,
            bucket(a.paragraphs[pids[k] as int].sentences, hash),
            0,
            m,
            past,
        );
        if here.2 is Some {
            here
        } else {
            scan_in_paragraphs(a, pids, k + 1, hash, here.0, here.1)
        }
    }
}

/// Looks for a sentence with the given hash: in the unmatched paragraphs of the
/// previous revision, then among all sentences stored.
pub open spec fn find_sentence(
    a: ArticleView,
    prevs: Seq<usize>,
    hash: Seq<char>,
    m: MatchedView,
    past: Seq<usize>,
) -> (MatchedView, Seq<usize>, Option<usize>) {
    let first = scan_in_paragraphs(a, prevs, 0, hash, m, past);
    if first.2 is Some {
        first
    } else {
        scan_sentences(a, bucket(a.sentences_ht, hash), 0, first.0, first.1)
    }
}

/// The article once the sentence `sid` is filed with the paragraph `pid`.
pub open spec fn sentence_attached(
    a: ArticleView,
    pid: usize,
    hash: Seq<char>,
    sid: usize,
) -> ArticleView {
    let p = a.paragraphs[pid as int];
    a.set_paragraph(
        pid as int,
        ParagraphView {
            sentences: with_id(p.sentences, hash, sid),
            ordered_sentences: p.ordered_sentences.push(hash),
            ..p
        },
    )
}

/// The state of the sentence level.
#[verifier::ext_equal]
pub struct SentenceState {
    pub article: ArticleView,
    pub matched: MatchedView,
    pub unmatched_curr: Seq<usize>,
    pub matched_prev: Seq<usize>,
    pub total: nat,
}

/// A sentence as it is filed: its tokens joined by spaces.
pub open spec fn normalized(text: Seq<char>) -> Seq<char> {
    joined(tokens_of(text), " "@)
}

/// One sentence of the paragraph `pid`: an earlier sentence is reused, or one is
/// allocated, and filed with the paragraph. A blank one is skipped.
pub open spec fn sentence_step(
    s: SentenceState,
    pid: usize,
    prevs: Seq<usize>,
    raw: Seq<char>,
) -> SentenceState {
    let text = trimmed(raw);
    let value = normalized(text);
    let hash = md5_hex(value);
    if text.len() == 0 {
        s
    } else {
        let (m, past, found) = find_sentence(s.article, prevs, hash, s.matched, s.matched_prev);
        match found {
            Some(sid) => SentenceState {
                article: sentence_attached(s.article, pid, hash, sid),
                matched: m,
                matched_prev: past,
                total: s.total + 1,
                ..s
            },
            None => {
                let sid = s.article.sentences.len() as usize;
                SentenceState {
                    article: sentence_attached(
                        s.article.with_sentence(hash, value),
                        pid,
                        hash,
                        sid,
                    ),
                    matched: m,
                    unmatched_curr: s.unmatched_curr.push(sid),
                    matched_prev: past,
                    total: s.total + 1,
                }
            },
        }
    }
}

/// The sentences of the paragraph `pid` from position `k` on.
pub open spec fn sentence_steps(
    s: SentenceState,
    pid: usize,
    prevs: Seq<usize>,
    raws: Seq<Seq<char>>,
    k: int,
) -> SentenceState
    decreases raws.len() - k,
{
    if k < 0 || k >= raws.len() {
        s
    } else {
        sentence_steps(sentence_step(s, pid, prevs, raws[k]), pid, prevs, raws, k + 1)
    }
}

/// The sentences of the paragraphs `pids` from position `k` on.
pub open spec fn sentence_paragraphs(
    s: SentenceState,
    pids: Seq<usize>,
    prevs: Seq<usize>,
    k: int,
) -> SentenceState
    decreases pids.len() - k,
{
    if k < 0 || k >= pids.len() {
        s
    } else {
        let raws = sentences_of(s.article.paragraphs[pids[k] as int].value);
        sentence_paragraphs(sentence_steps(s, pids[k], prevs, raws, 0), pids, prevs, k + 1)
    }
}

/// The sentences that no current one matched, from position `k` of `ids` on: each
/// is noted as unmatched and marked.
pub open spec fn sentences_left(
    ids: Seq<usize>,
    k: int,
    m: Set<usize>,
    left: Seq<usize>,
) -> (Set<usize>, Seq<usize>)
    decreases ids.len() - k,
{
    if k < 0 || k >= ids.len() {
        (m, left)
    } else if m.contains(ids[k]) {
        sentences_left(ids, k + 1, m, left)
    } else {
        sentences_left(ids, k + 1, m.insert(ids[k]), left.push(ids[k]))
    }
}

/// The same through the paragraphs `pids` from position `k` on.
pub open spec fn sentences_left_in(
    a: ArticleView,
    pids: Seq<usize>,
    k: int,
    m: Set<usize>,
    left: Seq<usize>,
) -> (Set<usize>, Seq<usize>)
    decreases pids.len() - k,
{
    if k < 0 || k >= pids.len() {
        (m, left)
    } else {
        let p = a.paragraphs[pids[k] as int];
        let here = sentences_left(ordered_ids(p.sentences, p.ordered_sentences), 0, m, left);
        sentences_left_in(a, pids, k + 1, here.0, here.1)
    }
}

impl SentenceState {
    /// What is held between two sentences of the text.
    pub open spec fn ok(self) -> bool {
        &&& self.article.arenas_ok()
        &&& ids_below(self.unmatched_curr, self.article.sentences.len() as int)
        &&& ids_below(self.matched_prev, self.article.sentences.len() as int)
        &&& self.total <= self.unmatched_curr.len() + self.matched_prev.len()
    }
}

/// Whether some and whether all of a sentence's tokens were matched.
fn check_sentence_words_status(article: &Article, sid: SentenceId, matched: &MatchedSets) -> (r: (
    bool,
    bool,
))
    requires
        sid < article@.sentences.len(),
    ensures
        r.0 == any_matched(article@.sentences[sid as int].words, matched@.tokens),
        r.1 == all_matched(article@.sentences[sid as int].words, matched@.tokens),
{
    words_status(&article.sentence(sid).words, matched)
}

/// Marks a sentence and its tokens as matched.
fn record_full_sentence_match(
    article: &Article,
    sid: SentenceId,
    matched: &mut MatchedSets,
    past: &mut Vec<SentenceId>,
)
    requires
        sid < article@.sentences.len(),
    ensures
        final(matched)@ == sentence_taken(article@, old(matched)@, sid),
        final(past)@ == old(past)@.push(sid),
{
    matched.sentences.insert(sid);
    insert_all(&mut matched.tokens, &article.sentence(sid).words);
    past.push(sid);
}

/// Looks through a bucket of sentences.
fn scan_sentence_bucket(
    article: &Article,
    ids: &Vec<SentenceId>,
    matched: &mut MatchedSets,
    past: &mut Vec<SentenceId>,
) -> (found: Option<SentenceId>)
    requires
        article@.arenas_ok(),
        ids_below(ids@, article@.sentences.len() as int),
    ensures
        (final(matched)@, final(past)@, found) == scan_sentences(
            article@,
            ids@,
            0,
            old(matched)@,
            old(past)@,
        ),
{
    let ghost a = article@;
    let mut k: usize = 0;
    while k < ids.len()
        invariant
            k <= ids@.len(),
            a == article@,
            a.arenas_ok(),
            ids_below(ids@, a.sentences.len() as int),
            scan_sentences(a, ids@, k as int, matched@, past@) == scan_sentences(
                a,
                ids@,
                0,
                old(matched)@,
                old(past)@,
            ),
        decreases ids@.len() - k,
    {
        let sid = ids[k];
        if !matched.sentences.contains(&sid) {
            let (one, all) = check_sentence_words_status(article, sid, matched);
            if !one {
                record_full_sentence_match(article, sid, matched, past);
                return Some(sid);
            } else if all {
                let ghost m0 = matched@;
                matched.sentences.insert(sid);
                past.push(sid);
                proof {
                    assert(matched@ =~= MatchedView { sentences: m0.sentences.insert(sid), ..m0 });
                }
            }
        }
        k = k + 1;
    }
    None
}

proof fn lemma_scan_sentences_below(
    a: ArticleView,
    ids: Seq<usize>,
    k: int,
    m: MatchedView,
    past: Seq<usize>,
    n: int,
)
    requires
        ids_below(ids, n),
        ids_below(past, n),
        0 <= k,
    ensures
        ({
            let r = scan_sentences(a, ids, k, m, past);
            &&& ids_below(r.1, n)
            &&& r.2 is Some ==> r.2->0 < n && r.1.len() > past.len()
            &&& r.1.len() >= past.len()
        }),
    decreases ids.len() - k,
{
    if k < ids.len() {
        let sid = ids[k];
        let ws = a.sentences[sid as int].words;
        if m.sentences.contains(sid) {
            lemma_scan_sentences_below(a, ids, k + 1, m, past, n);
        } else if !any_matched(ws, m.tokens) {
        } else if all_matched(ws, m.tokens) {
            lemma_scan_sentences_below(
                a,
                ids,
                k + 1,
                MatchedView { sentences: m.sentences.insert(sid), ..m },
                past.push(sid),
                n,
            );
        } else {
            lemma_scan_sentences_below(a, ids, k + 1, m, past, n);
        }
    }
}

proof fn lemma_scan_in_paragraphs_below(
    a: ArticleView,
    pids: Seq<usize>,
    k: int,
    hash: Seq<char>,
    m: MatchedView,
    past: Seq<usize>,
)
    requires
        a.arenas_ok(),
        ids_below(pids, a.paragraphs.len() as int),
        ids_below(past, a.sentences.len() as int),
        0 <= k,
    ensures
        ({
            let r = scan_in_paragraphs(a, pids, k, hash, m, past);
            &&& ids_below(r.1, a.sentences.len() as int)
            &&& r.2 is Some ==> r.2->0 < a.sentences.len() && r.1.len() > past.len()
            &&& r.1.len() >= past.len()
        }),
    decreases pids.len() - k,
{
    if k < pids.len() {
        let n = a.sentences.len() as int;
        assert(pids[k] < a.paragraphs.len());
        let e = a.paragraphs[pids[k] as int].sentences;
        lemma_bucket_below(e, hash, n);
        lemma_scan_sentences_below(a, bucket(e, hash), 0, m, past, n);
        let here = scan_sentences(a, bucket(e, hash), 0, m, past);
        if here.2 is None {
            lemma_scan_in_paragraphs_below(a, pids, k + 1, hash, here.0, here.1);
        }
    }
}

/// Looks for a sentence in the previous paragraphs, then among all stored.
fn look_up_sentence(
    article: &Article,
    prevs: &[ParagraphId],
    hash: &str,
    matched: &mut MatchedSets,
    past: &mut Vec<SentenceId>,
) -> (found: Option<SentenceId>)
    requires
        article@.arenas_ok(),
        ids_below(prevs@, article@.paragraphs.len() as int),
    ensures
        (final(matched)@, final(past)@, found) == find_sentence(
            article@,
            prevs@,
            hash@,
            old(matched)@,
            old(past)@,
        ),
{
    let ghost a = article@;
    let ghost n = a.sentences.len() as int;
    let mut k: usize = 0;
    while k < prevs.len()
        invariant
            k <= prevs@.len(),
            a == article@,
            n == a.sentences.len(),
            a.arenas_ok(),
            ids_below(prevs@, a.paragraphs.len() as int),
            scan_in_paragraphs(a, prevs@, k as int, hash@, matched@, past@) == scan_in_paragraphs(
                a,
                prevs@,
                0,
                hash@,
                old(matched)@,
                old(past)@,
            ),
        decreases prevs@.len() - k,
    {
        let ids = article.paragraph(prevs[k]).sentences.ids(hash);
        proof {
            lemma_bucket_below(a.paragraphs[prevs@[k as int] as int].sentences, hash@, n);
        }
        let found = scan_sentence_bucket(article, &ids, matched, past);
        if found.is_some() {
            return found;
        }
        k = k + 1;
    }
    let ids = article.sentences_ht.ids(hash);
    proof {
        lemma_bucket_below(a.sentences_ht, hash@, n);
    }
    scan_sentence_bucket(article, &ids, matched, past)
}

proof fn lemma_sentence_added(a: ArticleView, hash: Seq<char>, value: Seq<char>)
    requires
        a.arenas_ok(),
    ensures
        a.with_sentence(hash, value).arenas_ok(),
{
    let b = a.with_sentence(hash, value);
    let n = a.sentences.len() as int;
    lemma_entries_more(a.sentences_ht, n, n + 1);
    assert forall|i: int| 0 <= i < b.paragraphs.len() implies entries_below(
        (#[trigger] b.paragraphs[i]).sentences,
        b.sentences.len() as int,
    ) by {
        lemma_entries_more(a.paragraphs[i].sentences, n, n + 1);
    }
    assert forall|i: int| 0 <= i < b.sentences.len() implies ids_below(
        (#[trigger] b.sentences[i]).words,
        b.tokens.len() as int,
    ) by {
        if i < n {
            assert(b.sentences[i] == a.sentences[i]);
        }
    }
}

proof fn lemma_sentence_attached(a: ArticleView, pid: usize, hash: Seq<char>, sid: usize)
    requires
        a.arenas_ok(),
        pid < a.paragraphs.len(),
        sid < a.sentences.len(),
    ensures
        sentence_attached(a, pid, hash, sid).arenas_ok(),
{
    let b = sentence_attached(a, pid, hash, sid);
    lemma_with_id_below(a.paragraphs[pid as int].sentences, hash, sid, a.sentences.len() as int);
    assert forall|i: int| 0 <= i < b.paragraphs.len() implies entries_below(
        (#[trigger] b.paragraphs[i]).sentences,
        b.sentences.len() as int,
    ) by {
        if i != pid {
            assert(b.paragraphs[i] == a.paragraphs[i]);
        }
    }
}

/// A sentence of the text keeps what is held between sentences.
proof fn lemma_sentence_step_ok(s: SentenceState, pid: usize, prevs: Seq<usize>, raw: Seq<char>)
    requires
        s.ok(),
        pid < s.article.paragraphs.len(),
        ids_below(prevs, s.article.paragraphs.len() as int),
        sentence_step(s, pid, prevs, raw).article.sentences.len() <= usize::MAX,
    ensures
        sentence_step(s, pid, prevs, raw).ok(),
        sentence_step(s, pid, prevs, raw).article.paragraphs.len() == s.article.paragraphs.len(),
{
    let a = s.article;
    let n = a.sentences.len() as int;
    let text = trimmed(raw);
    let value = normalized(text);
    let hash = md5_hex(value);
    if text.len() > 0 {
        lemma_scan_in_paragraphs_below(a, prevs, 0, hash, s.matched, s.matched_prev);
        let first = scan_in_paragraphs(a, prevs, 0, hash, s.matched, s.matched_prev);
        lemma_bucket_below(a.sentences_ht, hash, n);
        lemma_scan_sentences_below(a, bucket(a.sentences_ht, hash), 0, first.0, first.1, n);
        let (m, past, found) = find_sentence(a, prevs, hash, s.matched, s.matched_prev);
        match found {
            Some(sid) => {
                lemma_sentence_attached(a, pid, hash, sid);
            },
            None => {
                lemma_sentence_added(a, hash, value);
                lemma_sentence_attached(a.with_sentence(hash, value), pid, hash, n as usize);
                lemma_below_more(s.unmatched_curr, n, n + 1);
                lemma_below_more(past, n, n + 1);
            },
        }
    }
}

/// Files a sentence with a paragraph.
fn attach_sentence(article: &mut Article, pid: ParagraphId, hash: &String, sid: SentenceId)
    requires
        pid < old(article)@.paragraphs.len(),
    ensures
        final(article)@ == sentence_attached(old(article)@, pid, hash@, sid),
{
    let p = article.paragraph_mut(pid);
    let ghost o0 = p.ordered_sentences@;
    p.sentences.push(hash, sid);
    p.ordered_sentences.push(hash.clone());
    proof {
        assert(texts(p.ordered_sentences@) =~= texts(o0).push(hash@));
    }
}

impl View for SentenceAnalysis {
    type V = (Seq<usize>, Seq<usize>, Seq<usize>, nat);

    /// The unmatched current, the unmatched previous and the matched sentences,
    /// and how many were looked at.
    open spec fn view(&self) -> (Seq<usize>, Seq<usize>, Seq<usize>, nat) {
        (
            self.unmatched_sentences_curr@,
            self.unmatched_sentences_prev@,
            self.matched_sentences_prev@,
            self.total_sentences as nat,
        )
    }
}

/// The sentence level before the previous sentences left over are noted.
pub open spec fn sentence_pass(
    a: ArticleView,
    pids: Seq<usize>,
    prevs: Seq<usize>,
    m: MatchedView,
) -> SentenceState {
    sentence_paragraphs(
        SentenceState {
            article: a,
            matched: m,
            unmatched_curr: Seq::empty(),
            matched_prev: Seq::empty(),
            total: 0,
        },
        pids,
        prevs,
        0,
    )
}

/// The sentence level: the article, what was matched, and the analysis. The
/// previous sentences left over are listed as unmatched and as matched, and
/// marked.
pub open spec fn sentence_level(
    a: ArticleView,
    pids: Seq<usize>,
    prevs: Seq<usize>,
    m: MatchedView,
) -> (ArticleView, MatchedView, (Seq<usize>, Seq<usize>, Seq<usize>, nat)) {
    let s = sentence_pass(a, pids, prevs, m);
    let left = sentences_left_in(s.article, prevs, 0, s.matched.sentences, Seq::empty());
    (
        s.article,
        MatchedView { sentences: left.0, ..s.matched },
        (s.unmatched_curr, left.1, s.matched_prev + left.1, s.total),
    )
}

/// Matches the sentences of one paragraph.
fn analyse_one_paragraph(
    article: &mut Article,
    pid: ParagraphId,
    prevs: &[ParagraphId],
    matched: &mut MatchedSets,
    unmatched: &mut Vec<SentenceId>,
    past: &mut Vec<SentenceId>,
    total: &mut u128,
)
    requires
        pid < old(article)@.paragraphs.len(),
        ids_below(prevs@, old(article)@.paragraphs.len() as int),
        (SentenceState {
            article: old(article)@,
            matched: old(matched)@,
            unmatched_curr: old(unmatched)@,
            matched_prev: old(past)@,
            total: *old(total) as nat,
        }).ok(),
    ensures
        ({
            let s0 = SentenceState {
                article: old(article)@,
                matched: old(matched)@,
                unmatched_curr: old(unmatched)@,
                matched_prev: old(past)@,
                total: *old(total) as nat,
            };
            let s = SentenceState {
                article: final(article)@,
                matched: final(matched)@,
                unmatched_curr: final(unmatched)@,
                matched_prev: final(past)@,
                total: *final(total) as nat,
            };
            &&& s.ok()
            &&& s == sentence_steps(
                s0,
                pid,
                prevs@,
                sentences_of(old(article)@.paragraphs[pid as int].value),
                0,
            )
            &&& s.article.paragraphs.len() == s0.article.paragraphs.len()
        }),
{
    let raws = split_sentences(article.paragraph(pid).value.as_str());
    let ghost rv = texts(raws@);
    let ghost np = article@.paragraphs.len();
    let ghost goal = sentence_steps(
        SentenceState {
            article: article@,
            matched: matched@,
            unmatched_curr: unmatched@,
            matched_prev: past@,
            total: *total as nat,
        },
        pid,
        prevs@,
        rv,
        0,
    );
    let mut k: usize = 0;
    while k < raws.len()
        invariant
            k <= raws@.len(),
            rv == texts(raws@),
            np == article@.paragraphs.len(),
            pid < np,
            ids_below(prevs@, np as int),
            (SentenceState {
                article: article@,
                matched: matched@,
                unmatched_curr: unmatched@,
                matched_prev: past@,
                total: *total as nat,
            }).ok(),
            sentence_steps(
                (SentenceState {
                    article: article@,
                    matched: matched@,
                    unmatched_curr: unmatched@,
                    matched_prev: past@,
                    total: *total as nat,
                }),
                pid,
                prevs@,
                rv,
                k as int,
            ) == goal,
        decreases raws@.len() - k,
    {
        let ghost s0 = SentenceState {
            article: article@,
            matched: matched@,
            unmatched_curr: unmatched@,
            matched_prev: past@,
            total: *total as nat,
        };
        let text = trim_text(raws[k].as_str());
        if !text.as_str().is_empty() {
            let value = join_text(&split_tokens(text.as_str()), " ");
            let hash = hash_md5(value.as_str());
            let u: usize = unmatched.len();
            let p: usize = past.len();
            proof {
                assert(*total <= u + p);
            }
            *total = *total + 1;
            let found = look_up_sentence(article, prevs, hash.as_str(), matched, past);
            match found {
                Some(sid) => {
                    attach_sentence(article, pid, &hash, sid);
                },
                None => {
                    let sid = article.alloc_sentence(hash.clone(), value);
                    attach_sentence(article, pid, &hash, sid);
                    unmatched.push(sid);
                },
            }
        }
        proof {
            let s1 = SentenceState {
                article: article@,
                matched: matched@,
                unmatched_curr: unmatched@,
                matched_prev: past@,
                total: *total as nat,
            };
            assert(s1 =~= sentence_step(s0, pid, prevs@, rv[k as int]));
            assert(s1.article.sentences.len() == article.sentences.len());
            lemma_sentence_step_ok(s0, pid, prevs@, rv[k as int]);
        }
        k = k + 1;
    }
}

/// Notes the previous sentences that no current one matched.
fn collect_sentences_left(
    article: &Article,
    prevs: &[ParagraphId],
    matched: &mut MatchedSets,
) -> (left: Vec<SentenceId>)
    requires
        article@.arenas_ok(),
        ids_below(prevs@, article@.paragraphs.len() as int),
    ensures
        (final(matched)@.sentences, left@) == sentences_left_in(
            article@,
            prevs@,
            0,
            old(matched)@.sentences,
            Seq::empty(),
        ),
        final(matched)@.paragraphs == old(matched)@.paragraphs,
        final(matched)@.tokens == old(matched)@.tokens,
        ids_below(left@, article@.sentences.len() as int),
{
    let ghost a = article@;
    let ghost goal = sentences_left_in(a, prevs@, 0, matched@.sentences, Seq::empty());
    let mut left: Vec<usize> = Vec::new();
    let mut k: usize = 0;
    proof {
        assert(left@ =~= Seq::empty());
    }
    while k < prevs.len()
        invariant
            k <= prevs@.len(),
            a == article@,
            a.arenas_ok(),
            ids_below(prevs@, a.paragraphs.len() as int),
            ids_below(left@, a.sentences.len() as int),
            matched@.paragraphs == old(matched)@.paragraphs,
            matched@.tokens == old(matched)@.tokens,
            sentences_left_in(a, prevs@, k as int, matched@.sentences, left@) == goal,
        decreases prevs@.len() - k,
    {
        let p = article.paragraph(prevs[k]);
        let ids = ids_in_order(&p.sentences, &p.ordered_sentences);
        proof {
            assert(a.paragraphs[prevs@[k as int] as int] == p@);
            lemma_ordered_below(p@.sentences, p@.ordered_sentences, 0, a.sentences.len() as int);
        }
        let ghost here = sentences_left(ids@, 0, matched@.sentences, left@);
        let mut i: usize = 0;
        while i < ids.len()
            invariant
                i <= ids@.len(),
                ids_below(ids@, a.sentences.len() as int),
                ids_below(left@, a.sentences.len() as int),
                matched@.paragraphs == old(matched)@.paragraphs,
                matched@.tokens == old(matched)@.tokens,
                sentences_left(ids@, i as int, matched@.sentences, left@) == here,
            decreases ids@.len() - i,
        {
            if !matched.sentences.contains(&ids[i]) {
                left.push(ids[i]);
                matched.sentences.insert(ids[i]);
            }
            i = i + 1;
        }
        k = k + 1;
    }
    left
}

/// Appends ids to a list.
fn append_ids(out: &mut Vec<usize>, ids: &Vec<usize>)
    ensures
        final(out)@ == old(out)@ + ids@,
{
    crate::buckets::push_ids(out, ids);
}

/// Matches the sentences of the unmatched current paragraphs against those of the
/// unmatched previous paragraphs and the past.
pub fn analyse_sentences_in_paragraphs(
    article: &mut Article,
    unmatched_paragraphs_curr: &[ParagraphId],
    unmatched_paragraphs_prev: &[ParagraphId],
    matched: &mut MatchedSets,
) -> (analysis: SentenceAnalysis)
    requires
        old(article)@.arenas_ok(),
        ids_below(unmatched_paragraphs_curr@, old(article)@.paragraphs.len() as int),
        ids_below(unmatched_paragraphs_prev@, old(article)@.paragraphs.len() as int),
    ensures
        (final(article)@, final(matched)@, analysis@) == sentence_level(
            old(article)@,
            unmatched_paragraphs_curr@,
            unmatched_paragraphs_prev@,
            old(matched)@,
        ),
        final(article)@.arenas_ok(),
        final(article)@.paragraphs.len() == old(article)@.paragraphs.len(),
        ids_below(analysis.unmatched_sentences_curr@, final(article)@.sentences.len() as int),
        ids_below(analysis.unmatched_sentences_prev@, final(article)@.sentences.len() as int),
        ids_below(analysis.matched_sentences_prev@, final(article)@.sentences.len() as int),
{
    let pids = unmatched_paragraphs_curr;
    let prevs = unmatched_paragraphs_prev;
    let ghost np = article@.paragraphs.len();
    let ghost goal = sentence_pass(article@, pids@, prevs@, matched@);
    let mut unmatched: Vec<usize> = Vec::new();
    let mut past: Vec<usize> = Vec::new();
    let mut total: u128 = 0;
    let mut k: usize = 0;
    proof {
        assert(unmatched@ =~= Seq::empty());
        assert(past@ =~= Seq::empty());
    }
    while k < pids.len()
        invariant
            k <= pids@.len(),
            np == article@.paragraphs.len(),
            ids_below(pids@, np as int),
            ids_below(prevs@, np as int),
            (SentenceState {
                article: article@,
                matched: matched@,
                unmatched_curr: unmatched@,
                matched_prev: past@,
                total: total as nat,
            }).ok(),
            sentence_paragraphs(
                (SentenceState {
                    article: article@,
                    matched: matched@,
                    unmatched_curr: unmatched@,
                    matched_prev: past@,
                    total: total as nat,
                }),
                pids@,
                prevs@,
                k as int,
            ) == goal,
        decreases pids@.len() - k,
    {
        analyse_one_paragraph(
            article,
            pids[k],
            prevs,
            matched,
            &mut unmatched,
            &mut past,
            &mut total,
        );
        k = k + 1;
    }
    let ghost m0 = matched@;
    let left = collect_sentences_left(article, prevs, matched);
    append_ids(&mut past, &left);
    proof {
        assert(matched@ =~= MatchedView { sentences: matched@.sentences, ..m0 });
    }
    SentenceAnalysis {
        unmatched_sentences_curr: unmatched,
        unmatched_sentences_prev: left,
        matched_sentences_prev: past,
        total_sentences: total,
    }
}

/// The texts of the tokens `ws`.
pub open spec fn word_values(a: ArticleView, ws: Seq<usize>) -> Seq<Seq<char>> {
    ws.map_values(|w: usize| a.tokens[w as int].value)
}

/// The words of the sentences `sids`, each with its sentence.
pub open spec fn sentence_words(a: ArticleView, sids: Seq<usize>) -> Seq<(usize, Seq<char>)>
    decreases sids.len(),
{
    if sids.len() == 0 {
        Seq::empty()
    } else {
        let sid = sids.last();
        sentence_words(a, sids.drop_last()) + split_on(
            a.sentences[sid as int].value,
            " "@,
        ).map_values(|w: Seq<char>| (sid, w))
    }
}

/// The words without their sentences.
pub open spec fn words_only(ws: Seq<(usize, Seq<char>)>) -> Seq<Seq<char>> {
    ws.map_values(|w: (usize, Seq<char>)| w.1)
}

/// The article once the token `id` is the last of the sentence `sid`.
pub open spec fn word_attached(a: ArticleView, sid: usize, id: usize) -> ArticleView {
    let s = a.sentences[sid as int];
    a.set_sentence(sid as int, SentenceView { words: s.words.push(id), ..s })
}

/// The article once a new token is the last of the sentence `sid`.
pub open spec fn word_added(a: ArticleView, sid: usize, value: Seq<char>, rev: u64) -> ArticleView {
    word_attached(a.with_word(value, rev), sid, a.next_token_id)
}

/// All words as new tokens, from position `k` on.
pub open spec fn words_added(
    a: ArticleView,
    ws: Seq<(usize, Seq<char>)>,
    k: int,
    rev: u64,
) -> ArticleView
    decreases ws.len() - k,
{
    if k < 0 || k >= ws.len() {
        a
    } else {
        words_added(word_added(a, ws[k].0, ws[k].1, rev), ws, k + 1, rev)
    }
}

/// What the words of a text are matched against: the previous tokens left over,
/// their texts, and the transcript between the two texts.
pub struct WordContext {
    pub prev_ids: Seq<usize>,
    pub prev_texts: Seq<Seq<char>>,
    pub ops: Seq<Step<Seq<char>>>,
    pub rev: u64,
}

/// The state of the word level: the article, the matched tokens, those matched
/// here in order, the steps of the transcript that are used up, and how many
/// tokens the revision added.
#[verifier::ext_equal]
pub struct WordState {
    pub article: ArticleView,
    pub tokens: Set<usize>,
    pub words: Seq<usize>,
    pub used: Seq<bool>,
    pub adds: nat,
}

/// The first previous token, from position `k` on, that is not matched and has
/// the text `word`.
pub open spec fn find_prev(
    prev_ids: Seq<usize>,
    prev_texts: Seq<Seq<char>>,
    tokens: Set<usize>,
    word: Seq<char>,
    k: int,
) -> Option<int>
    decreases prev_ids.len() - k,
{
    if k < 0 || k >= prev_ids.len() {
        None
    } else if !tokens.contains(prev_ids[k]) && prev_texts[k] == word {
        Some(k)
    } else {
        find_prev(prev_ids, prev_texts, tokens, word, k + 1)
    }
}

/// The text of a transcript step.
pub open spec fn step_text(s: Step<Seq<char>>) -> Seq<char> {
    match s {
        Step::Keep(v) => v,
        Step::Delete(v) => v,
        Step::Insert(v) => v,
    }
}

/// Goes through the transcript from position `pos` on for one word of the
/// sentence `sid`. The first unused step with the word's text decides: a kept one
/// reuses a previous token, an inserted one adds a token; a deleted one marks a
/// previous token as deleted and the search goes on. Returns whether the word
/// found its token.
pub open spec fn scan_steps(s: WordState, c: WordContext, sid: usize, word: Seq<char>, pos: int) -> (
    WordState,
    bool,
)
    decreases c.ops.len() - pos,
{
    if pos < 0 || pos >= c.ops.len() {
        (s, false)
    } else if s.used[pos] || step_text(c.ops[pos]) != word {
        scan_steps(s, c, sid, word, pos + 1)
    } else {
        let used = s.used.update(pos, true);
        match c.ops[pos] {
            Step::Keep(v) => match find_prev(c.prev_ids, c.prev_texts, s.tokens, word, 0) {
                Some(i) => {
                    let id = c.prev_ids[i];
                    (
                        WordState {
                            article: word_attached(s.article, sid, id),
                            tokens: s.tokens.insert(id),
                            words: s.words.push(id),
                            used,
                            ..s
                        },
                        true,
                    )
                },
                None => scan_steps(s, c, sid, word, pos + 1),
            },
            Step::Delete(v) => match find_prev(c.prev_ids, c.prev_texts, s.tokens, word, 0) {
                Some(i) => {
                    let id = c.prev_ids[i];
                    scan_steps(
                        WordState {
                            article: s.article.set_word(
                                id as int,
                                WordView {
                                    outbound: s.article.tokens[id as int].outbound.push(c.rev),
                                    ..s.article.tokens[id as int]
                                },
                            ),
                            tokens: s.tokens.insert(id),
                            words: s.words.push(id),
                            used,
                            ..s
                        },
                        c,
                        sid,
                        word,
                        pos + 1,
                    )
                },
                None => scan_steps(s, c, sid, word, pos + 1),
            },
            Step::Insert(v) => (
                WordState {
                    article: word_added(s.article, sid, word, c.rev),
                    used,
                    adds: s.adds + 1,
                    ..s
                },
                true,
            ),
        }
    }
}

/// One word: the transcript decides, else a token is added.
pub open spec fn word_step(s: WordState, c: WordContext, sid: usize, word: Seq<char>) -> WordState {
    let (t, done) = scan_steps(s, c, sid, word, 0);
    if done {
        t
    } else {
        WordState { article: word_added(t.article, sid, word, c.rev), adds: t.adds + 1, ..t }
    }
}

/// The words from position `k` on.
pub open spec fn word_steps(s: WordState, c: WordContext, ws: Seq<(usize, Seq<char>)>, k: int) -> WordState
    decreases ws.len() - k,
{
    if k < 0 || k >= ws.len() {
        s
    } else {
        word_steps(word_step(s, c, ws[k].0, ws[k].1), c, ws, k + 1)
    }
}

/// Outcome of the word level: the article, the matched tokens, those matched here
/// in order, how many tokens the revision added, and the verdict.
pub struct WordLevel {
    pub article: ArticleView,
    pub tokens: Set<usize>,
    pub words: Seq<usize>,
    pub adds: nat,
    pub vandalism: bool,
}

/// Whether the words recur too often on average.
pub open spec fn is_dense(words: Seq<Seq<char>>) -> bool {
    word_frequency(words).0 > TOKEN_DENSITY_LIMIT * word_frequency(words).1
}

/// The word level. Nothing happens without a current word, or where the text is
/// suspect and its words recur too often. Without a previous token left over all
/// words are new. Otherwise the transcript decides.
pub open spec fn word_level(
    a: ArticleView,
    curr: Seq<usize>,
    prev: Seq<usize>,
    suspect: bool,
    rev: u64,
    adds: nat,
    tokens: Set<usize>,
) -> WordLevel {
    let ws = sentence_words(a, curr);
    let ids = not_in(words_of(a.sentences, prev), tokens);
    let old_texts = word_values(a, ids);
    let none = WordLevel { article: a, tokens, words: Seq::empty(), adds, vandalism: false };
    if ws.len() == 0 {
        none
    } else if suspect && is_dense(words_only(ws)) {
        WordLevel { vandalism: true, ..none }
    } else if ids.len() == 0 {
        WordLevel { article: words_added(a, ws, 0, rev), adds: adds + ws.len(), ..none }
    } else {
        let c = WordContext {
            prev_ids: ids,
            prev_texts: old_texts,
            ops: transcript(old_texts, words_only(ws)),
            rev,
        };
        let s = word_steps(
            WordState {
                article: a,
                tokens,
                words: Seq::empty(),
                used: Seq::new(c.ops.len(), |i: int| false),
                adds,
            },
            c,
            ws,
            0,
        );
        WordLevel {
            article: s.article,
            tokens: s.tokens,
            words: s.words,
            adds: s.adds,
            vandalism: false,
        }
    }
}

proof fn lemma_word_attached(a: ArticleView, sid: usize, id: usize)
    requires
        a.arenas_ok(),
        sid < a.sentences.len(),
        id < a.tokens.len(),
    ensures
        word_attached(a, sid, id).arenas_ok(),
{
    let b = word_attached(a, sid, id);
    assert forall|i: int| 0 <= i < b.sentences.len() implies ids_below(
        (#[trigger] b.sentences[i]).words,
        b.tokens.len() as int,
    ) by {
        if i != sid {
            assert(b.sentences[i] == a.sentences[i]);
        } else {
            assert(ids_below(a.sentences[i].words, a.tokens.len() as int));
        }
    }
}

proof fn lemma_word_added(a: ArticleView, sid: usize, value: Seq<char>, rev: u64)
    requires
        a.arenas_ok(),
        sid < a.sentences.len(),
        a.tokens.len() < usize::MAX,
    ensures
        word_added(a, sid, value, rev).arenas_ok(),
{
    let b = a.with_word(value, rev);
    let n = a.tokens.len() as int;
    assert forall|i: int| 0 <= i < b.sentences.len() implies ids_below(
        (#[trigger] b.sentences[i]).words,
        b.tokens.len() as int,
    ) by {
        lemma_below_more(a.sentences[i].words, n, n + 1);
    }
    assert forall|i: int| 0 <= i < b.tokens.len() implies (#[trigger] b.tokens[i]).token_id == i by {
        if i < n {
            assert(b.tokens[i] == a.tokens[i]);
        }
    }
    assert(b.arenas_ok());
    lemma_word_attached(b, sid, a.next_token_id);
}

proof fn lemma_word_deleted(a: ArticleView, id: usize, rev: u64)
    requires
        a.arenas_ok(),
        id < a.tokens.len(),
    ensures
        a.set_word(
            id as int,
            WordView {
                outbound: a.tokens[id as int].outbound.push(rev),
                ..a.tokens[id as int]
            },
        ).arenas_ok(),
{
    let b = a.set_word(
        id as int,
        WordView { outbound: a.tokens[id as int].outbound.push(rev), ..a.tokens[id as int] },
    );
    assert forall|i: int| 0 <= i < b.tokens.len() implies (#[trigger] b.tokens[i]).token_id == i by {
        assert(a.tokens[i].token_id == i);
    }
}

/// Makes a token the last of a sentence.
fn attach_word(article: &mut Article, sid: SentenceId, id: TokenId)
    requires
        sid < old(article)@.sentences.len(),
    ensures
        final(article)@ == word_attached(old(article)@, sid, id),
        final(article).next_token_id == old(article).next_token_id,
        final(article).tokens@.len() == old(article).tokens@.len(),
{
    let ghost n0 = article@.next_token_id;
    let ghost t0 = article@.tokens.len();
    let s = article.sentence_mut(sid);
    s.words.push(id);
    proof {
        assert(article@.next_token_id == n0);
        assert(article@.tokens.len() == t0);
    }
}

/// Adds a token as the last of a sentence and counts it.
fn add_word(article: &mut Article, sid: SentenceId, value: String, rev: &mut Revision)
    requires
        old(article)@.arenas_ok(),
        sid < old(article)@.sentences.len(),
        old(rev).original_adds <= old(article)@.tokens.len(),
    ensures
        final(article)@ == word_added(old(article)@, sid, value@, old(rev).id),
        final(article)@.arenas_ok(),
        final(article)@.tokens.len() == old(article)@.tokens.len() + 1,
        final(rev)@ == (RevisionView {
            original_adds: (old(rev)@.original_adds + 1) as usize,
            ..old(rev)@
        }),
        final(rev).original_adds == old(rev).original_adds + 1,
        final(rev).original_adds <= final(article)@.tokens.len(),
{
    let ghost a0 = article@;
    let id = article.alloc_word(value, rev.id);
    let n: usize = article.tokens.len();
    proof {
        assert(article@.tokens.len() == n);
        assert(a0.tokens.len() + 1 == n);
        lemma_word_added(a0, sid, value@, rev.id);
    }
    attach_word(article, sid, id);
    rev.original_adds = rev.original_adds + 1;
}

/// The first previous token that is not matched and has the text `word`.
fn find_unmatched_prev(
    prev_ids: &Vec<TokenId>,
    prev_texts: &Vec<String>,
    word: &String,
    matched: &MatchedSets,
) -> (r: Option<usize>)
    requires
        prev_ids@.len() == prev_texts@.len(),
    ensures
        match r {
            Some(i) => i < prev_ids@.len() && find_prev(
                prev_ids@,
                texts(prev_texts@),
                matched@.tokens,
                word@,
                0,
            ) == Some(i as int),
            None => find_prev(prev_ids@, texts(prev_texts@), matched@.tokens, word@, 0) is None,
        },
{
    let mut k: usize = 0;
    while k < prev_ids.len()
        invariant
            k <= prev_ids@.len(),
            prev_ids@.len() == prev_texts@.len(),
            find_prev(prev_ids@, texts(prev_texts@), matched@.tokens, word@, k as int) == find_prev(
                prev_ids@,
                texts(prev_texts@),
                matched@.tokens,
                word@,
                0,
            ),
        decreases prev_ids@.len() - k,
    {
        if !matched.tokens.contains(&prev_ids[k]) && prev_texts[k] == *word {
            return Some(k);
        }
        k = k + 1;
    }
    None
}

/// The kinds of transcript steps.
#[derive(Clone, Copy, PartialEq, Eq, Structural)]
enum DiffKind {
    Keep,
    Delete,
    Insert,
}

/// The kind of a step, if its text is `word`.
fn kind_if(op: &DiffOp, word: &String) -> (r: Option<DiffKind>)
    ensures
        match r {
            Some(DiffKind::Keep) => op@ is Keep && step_text(op@) == word@,
            Some(DiffKind::Delete) => op@ is Delete && step_text(op@) == word@,
            Some(DiffKind::Insert) => op@ is Insert && step_text(op@) == word@,
            None => step_text(op@) != word@,
        },
{
    match op {
        DiffOp::Keep(v) => if *v == *word {
            Some(DiffKind::Keep)
        } else {
            None
        },
        DiffOp::Delete(v) => if *v == *word {
            Some(DiffKind::Delete)
        } else {
            None
        },
        DiffOp::Insert(v) => if *v == *word {
            Some(DiffKind::Insert)
        } else {
            None
        },
    }
}

/// The model of the word level's variables.
spec fn word_state(
    article: ArticleView,
    tokens: Set<usize>,
    words: Seq<usize>,
    used: Seq<bool>,
    adds: usize,
) -> WordState {
    WordState { article, tokens, words, used, adds: adds as nat }
}

/// What is held between two steps of the word level.
spec fn word_ok(
    a: ArticleView,
    prev_ids: Seq<usize>,
    sentences: nat,
    words: Seq<usize>,
    adds: usize,
) -> bool {
    &&& a.arenas_ok()
    &&& a.sentences.len() == sentences
    &&& ids_below(prev_ids, a.tokens.len() as int)
    &&& ids_below(words, a.tokens.len() as int)
    &&& adds <= a.tokens.len()
}

/// Goes through the transcript for one word.
fn match_word(
    article: &mut Article,
    sid: SentenceId,
    word: &String,
    ops: &Vec<DiffOp>,
    used: &mut Vec<bool>,
    prev_ids: &Vec<TokenId>,
    prev_texts: &Vec<String>,
    rev: &mut Revision,
    matched: &mut MatchedSets,
    words: &mut Vec<TokenId>,
    c: Ghost<WordContext>,
) -> (done: bool)
    requires
        c@ == (WordContext {
            prev_ids: prev_ids@,
            prev_texts: texts(prev_texts@),
            ops: steps(ops@),
            rev: old(rev).id,
        }),
        prev_ids@.len() == prev_texts@.len(),
        old(used)@.len() == ops@.len(),
        sid < old(article)@.sentences.len(),
        word_ok(
            old(article)@,
            prev_ids@,
            old(article)@.sentences.len(),
            old(words)@,
            old(rev).original_adds,
        ),
    ensures
        (
            word_state(
                final(article)@,
                final(matched)@.tokens,
                final(words)@,
                final(used)@,
                final(rev).original_adds,
            ),
            done,
        ) == scan_steps(
            word_state(
                old(article)@,
                old(matched)@.tokens,
                old(words)@,
                old(used)@,
                old(rev).original_adds,
            ),
            c@,
            sid,
            word@,
            0,
        ),
        final(matched)@.paragraphs == old(matched)@.paragraphs,
        final(matched)@.sentences == old(matched)@.sentences,
        final(used)@.len() == ops@.len(),
        final(rev)@ == (RevisionView {
            original_adds: final(rev).original_adds,
            ..old(rev)@
        }),
        word_ok(
            final(article)@,
            prev_ids@,
            old(article)@.sentences.len(),
            final(words)@,
            final(rev).original_adds,
        ),
        final(article)@.tokens.len() >= old(article)@.tokens.len(),
{
    let ghost ns = article@.sentences.len();
    let ghost goal = scan_steps(
        word_state(article@, matched@.tokens, words@, used@, rev.original_adds),
        c@,
        sid,
        word@,
        0,
    );
    let mut pos: usize = 0;
    while pos < ops.len()
        invariant
            pos <= ops@.len(),
            c@ == (WordContext {
                prev_ids: prev_ids@,
                prev_texts: texts(prev_texts@),
                ops: steps(ops@),
                rev: rev.id,
            }),
            prev_ids@.len() == prev_texts@.len(),
            used@.len() == ops@.len(),
            sid < ns,
            ns == old(article)@.sentences.len(),
            rev@ == old(rev)@,
            rev.original_adds == old(rev).original_adds,
            matched@.paragraphs == old(matched)@.paragraphs,
            matched@.sentences == old(matched)@.sentences,
            word_ok(article@, prev_ids@, ns, words@, rev.original_adds),
            article@.tokens.len() >= old(article)@.tokens.len(),
            scan_steps(
                word_state(article@, matched@.tokens, words@, used@, rev.original_adds),
                c@,
                sid,
                word@,
                pos as int,
            ) == goal,
            goal == scan_steps(
                word_state(
                    old(article)@,
                    old(matched)@.tokens,
                    old(words)@,
                    old(used)@,
                    old(rev).original_adds,
                ),
                c@,
                sid,
                word@,
                0,
            ),
        decreases ops@.len() - pos,
    {
        proof {
            assert(c@.ops[pos as int] == ops@[pos as int]@);
        }
        if !used[pos] {
            let kind = kind_if(&ops[pos], word);
            match kind {
                Some(DiffKind::Keep) => {
                    let found = find_unmatched_prev(prev_ids, prev_texts, word, matched);
                    if let Some(i) = found {
                        let id = prev_ids[i];
                        proof {
                            lemma_word_attached(article@, sid, id);
                        }
                        matched.tokens.insert(id);
                        attach_word(article, sid, id);
                        words.push(id);
                        used.set(pos, true);
                        proof {
                            assert(word_state(
                                article@,
                                matched@.tokens,
                                words@,
                                used@,
                                rev.original_adds,
                            ) =~= goal.0);
                        }
                        return true;
                    }
                },
                Some(DiffKind::Delete) => {
                    let found = find_unmatched_prev(prev_ids, prev_texts, word, matched);
                    if let Some(i) = found {
                        let id = prev_ids[i];
                        proof {
                            lemma_word_deleted(article@, id, rev.id);
                        }
                        matched.tokens.insert(id);
                        mark_deleted(article, id, rev.id);
                        words.push(id);
                        used.set(pos, true);
                    }
                },
                Some(DiffKind::Insert) => {
                    let ghost n0 = article@.tokens.len() as int;
                    add_word(article, sid, word.clone(), rev);
                    used.set(pos, true);
                    proof {
                        lemma_below_more(prev_ids@, n0, n0 + 1);
                        lemma_below_more(words@, n0, n0 + 1);
                        assert(word_state(
                            article@,
                            matched@.tokens,
                            words@,
                            used@,
                            rev.original_adds,
                        ) =~= goal.0);
                    }
                    return true;
                },
                None => {},
            }
        }
        pos = pos + 1;
    }
    false
}

/// Notes that a revision deleted a token.
fn mark_deleted(article: &mut Article, id: TokenId, rev: RevId)
    requires
        id < old(article)@.tokens.len(),
    ensures
        final(article)@ == old(article)@.set_word(
            id as int,
            (WordView {
                outbound: old(article)@.tokens[id as int].outbound.push(rev),
                ..old(article)@.tokens[id as int]
            }),
        ),
{
    let w = article.word_mut(id);
    w.outbound.push(rev);
}

/// The previous tokens left over, with their texts.
fn collect_prev_words(article: &Article, sids: &[SentenceId], matched: &MatchedSets) -> (r: (
    Vec<TokenId>,
    Vec<String>,
))
    requires
        article@.arenas_ok(),
        ids_below(sids@, article@.sentences.len() as int),
    ensures
        r.0@ == not_in(words_of(article@.sentences, sids@), matched@.tokens),
        texts(r.1@) == word_values(article@, r.0@),
        r.1@.len() == r.0@.len(),
        ids_below(r.0@, article@.tokens.len() as int),
{
    let ghost a = article@;
    let list = copy_slice(sids);
    let ws = article.words_in(&list);
    proof {
        lemma_words_below(a.sentences, sids@, a.tokens.len() as int);
    }
    let ids = keep_unmatched(&ws, &matched.tokens);
    proof {
        assert(ids_below(ids@, a.tokens.len() as int));
    }
    let mut values: Vec<String> = Vec::new();
    let mut i: usize = 0;
    while i < ids.len()
        invariant
            i <= ids@.len(),
            a == article@,
            ids_below(ids@, a.tokens.len() as int),
            values@.len() == i,
            texts(values@) == word_values(a, ids@).take(i as int),
        decreases ids@.len() - i,
    {
        let ghost v0 = values@;
        values.push(article.word(ids[i]).value.clone());
        proof {
            assert(texts(values@) =~= texts(v0).push(a.tokens[ids@[i as int] as int].value));
            assert(word_values(a, ids@).take(i + 1) =~= word_values(a, ids@).take(i as int).push(
                a.tokens[ids@[i as int] as int].value,
            ));
        }
        i = i + 1;
    }
    proof {
        assert(word_values(a, ids@).take(i as int) =~= word_values(a, ids@));
    }
    (ids, values)
}

fn copy_slice(v: &[usize]) -> (r: Vec<usize>)
    ensures
        r@ == v@,
{
    let mut r: Vec<usize> = Vec::new();
    let mut i: usize = 0;
    while i < v.len()
        invariant
            i <= v@.len(),
            r@ == v@.take(i as int),
        decreases v@.len() - i,
    {
        r.push(v[i]);
        proof {
            assert(v@.take(i + 1) =~= v@.take(i as int).push(v@[i as int]));
        }
        i = i + 1;
    }
    proof {
        assert(v@.take(i as int) =~= v@);
    }
    r
}

/// The words of the current sentences: the sentence and the text of each.
spec fn paired(sids: Seq<usize>, values: Seq<Seq<char>>) -> Seq<(usize, Seq<char>)> {
    Seq::new(sids.len(), |i: int| (sids[i], values[i]))
}

/// The words of the current sentences, each with its sentence.
fn collect_curr_words(article: &Article, sids: &[SentenceId]) -> (r: (Vec<SentenceId>, Vec<String>))
    requires
        ids_below(sids@, article@.sentences.len() as int),
    ensures
        r.0@.len() == r.1@.len(),
        paired(r.0@, texts(r.1@)) == sentence_words(article@, sids@),
        texts(r.1@) == words_only(sentence_words(article@, sids@)),
        ids_below(r.0@, article@.sentences.len() as int),
{
    let ghost a = article@;
    let mut owners: Vec<usize> = Vec::new();
    let mut values: Vec<String> = Vec::new();
    let mut i: usize = 0;
    proof {
        reveal_strlit(" ");
        assert(paired(owners@, texts(values@)) =~= sentence_words(a, sids@.take(0)));
    }
    while i < sids.len()
        invariant
            i <= sids@.len(),
            a == article@,
            " "@.len() == 1,
            ids_below(sids@, a.sentences.len() as int),
            owners@.len() == values@.len(),
            ids_below(owners@, a.sentences.len() as int),
            paired(owners@, texts(values@)) == sentence_words(a, sids@.take(i as int)),
        decreases sids@.len() - i,
    {
        let sid = sids[i];
        let pieces = split_text(&chars_of(article.sentence(sid).value.as_str()), " ");
        let ghost before = paired(owners@, texts(values@));
        let ghost pv = texts(pieces@).map_values(|w: Seq<char>| (sid, w));
        let mut k: usize = 0;
        proof {
            assert(before + pv.take(0) =~= before);
        }
        while k < pieces.len()
            invariant
                k <= pieces@.len(),
                sid < a.sentences.len(),
                owners@.len() == values@.len(),
                ids_below(owners@, a.sentences.len() as int),
                pv == texts(pieces@).map_values(|w: Seq<char>| (sid, w)),
                paired(owners@, texts(values@)) == before + pv.take(k as int),
            decreases pieces@.len() - k,
        {
            let ghost o0 = owners@;
            let ghost v0 = values@;
            owners.push(sid);
            values.push(pieces[k].clone());
            proof {
                assert(texts(values@) =~= texts(v0).push(pieces@[k as int]@));
                assert(paired(owners@, texts(values@)) =~= paired(o0, texts(v0)).push(
                    pv[k as int],
                ));
                assert(pv.take(k + 1) =~= pv.take(k as int).push(pv[k as int]));
                assert(before + pv.take(k + 1) =~= (before + pv.take(k as int)).push(
                    pv[k as int],
                ));
            }
            k = k + 1;
        }
        proof {
            assert(pv.take(k as int) =~= pv);
            assert(sids@.take(i + 1).drop_last() =~= sids@.take(i as int));
            assert(sids@.take(i + 1).last() == sid);
        }
        i = i + 1;
    }
    proof {
        assert(sids@.take(i as int) =~= sids@);
        assert(texts(values@) =~= words_only(paired(owners@, texts(values@))));
    }
    (owners, values)
}

/// Matches the words of the unmatched current sentences against the tokens of the
/// unmatched previous ones. Returns the previous tokens matched, in order, and
/// whether the density of the text marks it as vandalism.
pub fn analyse_words_in_sentences(
    article: &mut Article,
    unmatched_sentences_curr: &[SentenceId],
    unmatched_sentences_prev: &[SentenceId],
    possible_vandalism: bool,
    revision_curr: &mut Revision,
    matched: &mut MatchedSets,
) -> (r: (Vec<TokenId>, bool))
    requires
        old(article)@.arenas_ok(),
        ids_below(unmatched_sentences_curr@, old(article)@.sentences.len() as int),
        ids_below(unmatched_sentences_prev@, old(article)@.sentences.len() as int),
        old(revision_curr).original_adds <= old(article)@.tokens.len(),
    ensures
        ({
            let w = word_level(
                old(article)@,
                unmatched_sentences_curr@,
                unmatched_sentences_prev@,
                possible_vandalism,
                old(revision_curr).id,
                old(revision_curr).original_adds as nat,
                old(matched)@.tokens,
            );
            &&& final(article)@ == w.article
            &&& final(matched)@ == (MatchedView { tokens: w.tokens, ..old(matched)@ })
            &&& final(revision_curr)@ == (RevisionView {
                original_adds: w.adds as usize,
                ..old(revision_curr)@
            })
            &&& final(revision_curr).original_adds == w.adds
            &&& r.0@ == w.words
            &&& r.1 == w.vandalism
        }),
        final(article)@.arenas_ok(),
        final(article)@.sentences.len() == old(article)@.sentences.len(),
        final(article)@.tokens.len() >= old(article)@.tokens.len(),
        ids_below(r.0@, final(article)@.tokens.len() as int),
{
    let ghost a = article@;
    let ghost ns = a.sentences.len();
    let rev_id = revision_curr.id;
    let (prev_ids, prev_texts) = collect_prev_words(article, unmatched_sentences_prev, matched);
    let (owners, values) = collect_curr_words(article, unmatched_sentences_curr);
    let ghost ws = sentence_words(a, unmatched_sentences_curr@);
    let mut words: Vec<TokenId> = Vec::new();
    proof {
        assert(words@ =~= Seq::empty());
        assert(matched@ =~= MatchedView { tokens: matched@.tokens, ..matched@ });
        assert(revision_curr@ =~= RevisionView {
            original_adds: revision_curr.original_adds,
            ..revision_curr@
        });
    }
    if values.len() == 0 {
        proof {
            assert(ws.len() == 0);
        }
        return (words, false);
    }
    if possible_vandalism {
        let density = avg_word_freq(values.as_slice());
        let limit = Ratio { num: TOKEN_DENSITY_LIMIT, den: 1 };
        proof {
            assert(density@ == word_frequency(words_only(ws)));
            lemma_frequency_positive(words_only(ws));
            let x = density@;
            assert(x.0 * limit@.1 == x.0) by (nonlinear_arith)
                requires
                    limit@.1 == 1,
            ;
            assert(crate::matcher::exceeds(density@, limit@) == is_dense(words_only(ws)));
        }
        if density.exceeds(&limit) {
            return (words, true);
        }
    }
    if prev_ids.len() == 0 {
        let ghost goal = words_added(a, ws, 0, rev_id);
        let ghost base = revision_curr.original_adds;
        let mut k: usize = 0;
        while k < values.len()
            invariant
                k <= values@.len(),
                owners@.len() == values@.len(),
                ws == paired(owners@, texts(values@)),
                ids_below(owners@, ns as int),
                article@.arenas_ok(),
                article@.sentences.len() == ns,
                article@.tokens.len() == a.tokens.len() + k,
                revision_curr.original_adds <= article@.tokens.len(),
                revision_curr.original_adds == base + k,
                revision_curr.id == rev_id,
                revision_curr@ == (RevisionView {
                    original_adds: revision_curr.original_adds,
                    ..old(revision_curr)@
                }),
                words_added(article@, ws, k as int, rev_id) == goal,
            decreases values@.len() - k,
        {
            proof {
                assert(ws[k as int] == (owners@[k as int], values@[k as int]@));
            }
            add_word(article, owners[k], values[k].clone(), revision_curr);
            k = k + 1;
        }
        return (words, false);
    }
    let ops = differ_compare(prev_texts.as_slice(), values.as_slice());
    let ghost c = WordContext {
        prev_ids: prev_ids@,
        prev_texts: texts(prev_texts@),
        ops: steps(ops@),
        rev: rev_id,
    };
    let mut used: Vec<bool> = Vec::new();
    let mut i: usize = 0;
    while i < ops.len()
        invariant
            i <= ops@.len(),
            used@.len() == i,
            forall|j: int| 0 <= j < i ==> !#[trigger] used@[j],
        decreases ops@.len() - i,
    {
        used.push(false);
        i = i + 1;
    }
    proof {
        assert(used@ =~= Seq::new(c.ops.len(), |i: int| false));
        assert(c.prev_texts == word_values(a, prev_ids@));
        assert(c.ops == transcript(c.prev_texts, words_only(ws)));
    }
    let ghost start = WordState {
        article: a,
        tokens: matched@.tokens,
        words: Seq::empty(),
        used: Seq::new(c.ops.len(), |i: int| false),
        adds: revision_curr.original_adds as nat,
    };
    proof {
        assert(word_state(article@, matched@.tokens, words@, used@, revision_curr.original_adds)
            =~= start);
    }
    let ghost goal = word_steps(
        word_state(article@, matched@.tokens, words@, used@, revision_curr.original_adds),
        c,
        ws,
        0,
    );
    let mut k: usize = 0;
    while k < values.len()
        invariant
            k <= values@.len(),
            owners@.len() == values@.len(),
            ws == paired(owners@, texts(values@)),
            ids_below(owners@, ns as int),
            prev_ids@.len() == prev_texts@.len(),
            used@.len() == ops@.len(),
            c == (WordContext {
                prev_ids: prev_ids@,
                prev_texts: texts(prev_texts@),
                ops: steps(ops@),
                rev: rev_id,
            }),
            revision_curr.id == rev_id,
            revision_curr@ == (RevisionView {
                original_adds: revision_curr.original_adds,
                ..old(revision_curr)@
            }),
            matched@.paragraphs == old(matched)@.paragraphs,
            matched@.sentences == old(matched)@.sentences,
            word_ok(article@, prev_ids@, ns, words@, revision_curr.original_adds),
            article@.tokens.len() >= a.tokens.len(),
            word_steps(
                word_state(article@, matched@.tokens, words@, used@, revision_curr.original_adds),
                c,
                ws,
                k as int,
            ) == goal,
        decreases values@.len() - k,
    {
        let ghost s0 = word_state(
            article@,
            matched@.tokens,
            words@,
            used@,
            revision_curr.original_adds,
        );
        proof {
            assert(ws[k as int] == (owners@[k as int], values@[k as int]@));
        }
        let done = match_word(
            article,
            owners[k],
            &values[k],
            &ops,
            &mut used,
            &prev_ids,
            &prev_texts,
            revision_curr,
            matched,
            &mut words,
            Ghost(c),
        );
        if !done {
            let ghost n0 = article@.tokens.len() as int;
            add_word(article, owners[k], values[k].clone(), revision_curr);
            proof {
                lemma_below_more(prev_ids@, n0, n0 + 1);
                lemma_below_more(words@, n0, n0 + 1);
            }
        }
        proof {
            assert(word_state(
                article@,
                matched@.tokens,
                words@,
                used@,
                revision_curr.original_adds,
            ) =~= word_step(s0, c, owners@[k as int], values@[k as int]@));
        }
        k = k + 1;
    }
    proof {
        assert(matched@ =~= MatchedView { tokens: goal.tokens, ..old(matched)@ });
    }
    (words, false)
}

proof fn lemma_frequency_positive(ws: Seq<Seq<char>>)
    ensures
        word_frequency(ws).1 > 0,
{
    let c = crate::tokenize::counted(ws);
    if c.len() > 0 {
        lemma_distinct_some(c);
    }
}

proof fn lemma_distinct_some(c: Seq<Seq<char>>)
    requires
        c.len() > 0,
    ensures
        crate::diff::distinct(c).len() > 0,
{
    let r = crate::diff::distinct(c.drop_last());
    if r.contains(c.last()) {
        assert(r.len() > 0);
    }
}

/// Whether `b` is `a` later on, with the same tables.
pub open spec fn cascaded(a: ArticleView, b: ArticleView) -> bool {
    arenas_grow(a, b) && same_tables(a, b)
}

proof fn lemma_cascaded_trans(a: ArticleView, b: ArticleView, c: ArticleView)
    requires
        cascaded(a, b),
        cascaded(b, c),
    ensures
        cascaded(a, c),
{
    lemma_grow_trans(a, b, c);
}

/// Whether `t` has the tokens of `s` and those that `rev` introduced, and counts
/// them.
pub open spec fn word_tokens_added(s: WordState, t: WordState, rev: u64) -> bool {
    &&& tokens_added(s.article.tokens, t.article.tokens, rev)
    &&& t.article.tokens.len() - s.article.tokens.len() == t.adds - s.adds
}

proof fn lemma_added_trans(a: ArticleView, b: ArticleView, c: ArticleView, rev: u64)
    requires
        tokens_added(a.tokens, b.tokens, rev),
        tokens_added(b.tokens, c.tokens, rev),
        arenas_grow(b, c),
    ensures
        tokens_added(a.tokens, c.tokens, rev),
{
    assert forall|i: int| a.tokens.len() <= i < c.tokens.len() implies (
    #[trigger] c.tokens[i]).origin_rev_id == rev by {
        if i < b.tokens.len() {
            assert(same_word(b.tokens[i], c.tokens[i]));
            assert(b.tokens[i].origin_rev_id == rev);
        }
    }
}

proof fn lemma_paragraph_push_grows(a: ArticleView, hash: Seq<char>, value: Seq<char>)
    ensures
        cascaded(a, a.with_paragraph(hash, value)),
{
    lemma_grow_refl(a);
    let b = a.with_paragraph(hash, value);
    assert forall|i: int| 0 <= i < a.paragraphs.len() implies a.paragraphs[i].hash_value == (
    #[trigger] b.paragraphs[i]).hash_value && a.paragraphs[i].ordered_sentences.is_prefix_of(
        b.paragraphs[i].ordered_sentences,
    ) by {
        assert(b.paragraphs[i] == a.paragraphs[i]);
        lemma_prefix_self(a.paragraphs[i].ordered_sentences);
    }
}

pub(crate) proof fn lemma_paragraph_steps_grow(
    s: ParagraphState,
    prev: RevisionView,
    raws: Seq<Seq<char>>,
    k: int,
)
    ensures
        cascaded(s.article, paragraph_steps(s, prev, raws, k).article),
        paragraph_steps(s, prev, raws, k).article.tokens == s.article.tokens,
        paragraph_steps(s, prev, raws, k).revision.id == s.revision.id,
        paragraph_steps(s, prev, raws, k).revision.original_adds == s.revision.original_adds,
        paragraph_steps(s, prev, raws, k).revision.editor == s.revision.editor,
        paragraph_steps(s, prev, raws, k).revision.timestamp == s.revision.timestamp,
        paragraph_steps(s, prev, raws, k).revision.length == s.revision.length,
    decreases raws.len() - k,
{
    lemma_grow_refl(s.article);
    if 0 <= k < raws.len() {
        let t = paragraph_step(s, prev, raws[k]);
        let text = trimmed(raws[k]);
        lemma_paragraph_push_grows(s.article, md5_hex(text), text);
        assert(cascaded(s.article, t.article));
        lemma_paragraph_steps_grow(t, prev, raws, k + 1);
        lemma_cascaded_trans(
            s.article,
            t.article,
            paragraph_steps(t, prev, raws, k + 1).article,
        );
    }
}

proof fn lemma_attach_grows(a: ArticleView, pid: usize, hash: Seq<char>, sid: usize)
    requires
        pid < a.paragraphs.len(),
    ensures
        cascaded(a, sentence_attached(a, pid, hash, sid)),
        sentence_attached(a, pid, hash, sid).paragraphs.len() == a.paragraphs.len(),
{
    lemma_grow_refl(a);
    let b = sentence_attached(a, pid, hash, sid);
    assert forall|i: int| 0 <= i < a.paragraphs.len() implies a.paragraphs[i].hash_value == (
    #[trigger] b.paragraphs[i]).hash_value && a.paragraphs[i].ordered_sentences.is_prefix_of(
        b.paragraphs[i].ordered_sentences,
    ) by {
        if i == pid {
            lemma_prefix_push(a.paragraphs[i].ordered_sentences, hash);
        } else {
            lemma_prefix_self(a.paragraphs[i].ordered_sentences);
        }
    }
}

proof fn lemma_sentence_push_grows(a: ArticleView, hash: Seq<char>, value: Seq<char>)
    ensures
        cascaded(a, a.with_sentence(hash, value)),
{
    lemma_grow_refl(a);
    let b = a.with_sentence(hash, value);
    assert forall|i: int| 0 <= i < a.sentences.len() implies a.sentences[i].hash_value == (
    #[trigger] b.sentences[i]).hash_value && a.sentences[i].words.is_prefix_of(
        b.sentences[i].words,
    ) by {
        assert(b.sentences[i] == a.sentences[i]);
        lemma_prefix_self(a.sentences[i].words);
    }
}

pub(crate) proof fn lemma_sentence_steps_grow(
    s: SentenceState,
    pid: usize,
    prevs: Seq<usize>,
    raws: Seq<Seq<char>>,
    k: int,
)
    requires
        pid < s.article.paragraphs.len(),
    ensures
        cascaded(s.article, sentence_steps(s, pid, prevs, raws, k).article),
        sentence_steps(s, pid, prevs, raws, k).article.tokens == s.article.tokens,
        sentence_steps(s, pid, prevs, raws, k).article.paragraphs.len()
            == s.article.paragraphs.len(),
    decreases raws.len() - k,
{
    lemma_grow_refl(s.article);
    if 0 <= k < raws.len() {
        let t = sentence_step(s, pid, prevs, raws[k]);
        let text = trimmed(raws[k]);
        let value = normalized(text);
        let hash = md5_hex(value);
        if text.len() > 0 {
            let (m, past, found) = find_sentence(s.article, prevs, hash, s.matched, s.matched_prev);
            match found {
                Some(sid) => {
                    lemma_attach_grows(s.article, pid, hash, sid);
                },
                None => {
                    let sid = s.article.sentences.len() as usize;
                    let b = s.article.with_sentence(hash, value);
                    lemma_sentence_push_grows(s.article, hash, value);
                    lemma_attach_grows(b, pid, hash, sid);
                    lemma_cascaded_trans(s.article, b, sentence_attached(b, pid, hash, sid));
                },
            }
        }
        lemma_sentence_steps_grow(t, pid, prevs, raws, k + 1);
        lemma_cascaded_trans(
            s.article,
            t.article,
            sentence_steps(t, pid, prevs, raws, k + 1).article,
        );
    }
}

pub(crate) proof fn lemma_sentence_paragraphs_grow(
    s: SentenceState,
    pids: Seq<usize>,
    prevs: Seq<usize>,
    k: int,
)
    requires
        ids_below(pids, s.article.paragraphs.len() as int),
    ensures
        cascaded(s.article, sentence_paragraphs(s, pids, prevs, k).article),
        sentence_paragraphs(s, pids, prevs, k).article.tokens == s.article.tokens,
    decreases pids.len() - k,
{
    lemma_grow_refl(s.article);
    if 0 <= k < pids.len() {
        let raws = sentences_of(s.article.paragraphs[pids[k] as int].value);
        let t = sentence_steps(s, pids[k], prevs, raws, 0);
        lemma_sentence_steps_grow(s, pids[k], prevs, raws, 0);
        lemma_sentence_paragraphs_grow(t, pids, prevs, k + 1);
        lemma_cascaded_trans(
            s.article,
            t.article,
            sentence_paragraphs(t, pids, prevs, k + 1).article,
        );
    }
}

proof fn lemma_word_attach_grows(a: ArticleView, sid: usize, id: usize)
    requires
        sid < a.sentences.len(),
    ensures
        cascaded(a, word_attached(a, sid, id)),
        word_attached(a, sid, id).sentences.len() == a.sentences.len(),
        word_attached(a, sid, id).paragraphs == a.paragraphs,
{
    lemma_grow_refl(a);
    let b = word_attached(a, sid, id);
    assert forall|i: int| 0 <= i < a.sentences.len() implies a.sentences[i].hash_value == (
    #[trigger] b.sentences[i]).hash_value && a.sentences[i].words.is_prefix_of(
        b.sentences[i].words,
    ) by {
        if i == sid {
            lemma_prefix_push(a.sentences[i].words, id);
        } else {
            lemma_prefix_self(a.sentences[i].words);
        }
    }
}

pub(crate) proof fn lemma_word_add_grows(a: ArticleView, sid: usize, value: Seq<char>, rev: u64)
    requires
        sid < a.sentences.len(),
    ensures
        cascaded(a, word_added(a, sid, value, rev)),
        word_added(a, sid, value, rev).sentences.len() == a.sentences.len(),
        word_added(a, sid, value, rev).paragraphs == a.paragraphs,
        word_added(a, sid, value, rev).tokens.len() == a.tokens.len() + 1,
        tokens_added(a.tokens, word_added(a, sid, value, rev).tokens, rev),
{
    lemma_grow_refl(a);
    let b = a.with_word(value, rev);
    assert forall|i: int| 0 <= i < a.tokens.len() implies same_word(
        a.tokens[i],
        #[trigger] b.tokens[i],
    ) by {
        assert(same_word(a.tokens[i], a.tokens[i]));
        assert(b.tokens[i] == a.tokens[i]);
    }
    lemma_word_attach_grows(b, sid, a.next_token_id);
    lemma_cascaded_trans(a, b, word_added(a, sid, value, rev));
}

pub(crate) proof fn lemma_words_added_grow(a: ArticleView, ws: Seq<(usize, Seq<char>)>, k: int, rev: u64)
    requires
        forall|i: int| 0 <= i < ws.len() ==> (#[trigger] ws[i]).0 < a.sentences.len(),
    ensures
        cascaded(a, words_added(a, ws, k, rev)),
        words_added(a, ws, k, rev).paragraphs == a.paragraphs,
        tokens_added(a.tokens, words_added(a, ws, k, rev).tokens, rev),
        0 <= k <= ws.len() ==> words_added(a, ws, k, rev).tokens.len() == a.tokens.len() + ws.len()
            - k,
    decreases ws.len() - k,
{
    lemma_grow_refl(a);
    if 0 <= k < ws.len() {
        let b = word_added(a, ws[k].0, ws[k].1, rev);
        lemma_word_add_grows(a, ws[k].0, ws[k].1, rev);
        lemma_words_added_grow(b, ws, k + 1, rev);
        lemma_cascaded_trans(a, b, words_added(b, ws, k + 1, rev));
        lemma_added_trans(a, b, words_added(b, ws, k + 1, rev), rev);
    }
}

pub(crate) proof fn lemma_find_prev(
    prev_ids: Seq<usize>,
    prev_texts: Seq<Seq<char>>,
    tokens: Set<usize>,
    word: Seq<char>,
    k: int,
)
    requires
        0 <= k,
    ensures
        find_prev(prev_ids, prev_texts, tokens, word, k) is Some ==> {
            let i = find_prev(prev_ids, prev_texts, tokens, word, k)->0;
            k <= i < prev_ids.len() && !tokens.contains(prev_ids[i]) && prev_texts[i] == word
        },
    decreases prev_ids.len() - k,
{
    if k < prev_ids.len() && (tokens.contains(prev_ids[k]) || prev_texts[k] != word) {
        lemma_find_prev(prev_ids, prev_texts, tokens, word, k + 1);
    }
}

pub(crate) proof fn lemma_scan_steps_grow(s: WordState, c: WordContext, sid: usize, word: Seq<char>, pos: int)
    requires
        sid < s.article.sentences.len(),
        ids_below(c.prev_ids, s.article.tokens.len() as int),
    ensures
        ({
            let t = scan_steps(s, c, sid, word, pos).0;
            &&& cascaded(s.article, t.article)
            &&& t.article.sentences.len() == s.article.sentences.len()
            &&& t.article.paragraphs == s.article.paragraphs
            &&& word_tokens_added(s, t, c.rev)
        }),
    decreases c.ops.len() - pos,
{
    lemma_grow_refl(s.article);
    if 0 <= pos < c.ops.len() {
        lemma_find_prev(c.prev_ids, c.prev_texts, s.tokens, word, 0);
        if s.used[pos] || step_text(c.ops[pos]) != word {
            lemma_scan_steps_grow(s, c, sid, word, pos + 1);
        } else {
            match c.ops[pos] {
                Step::Keep(v) => {
                    match find_prev(c.prev_ids, c.prev_texts, s.tokens, word, 0) {
                        Some(i) => {
                            lemma_word_attach_grows(s.article, sid, c.prev_ids[i]);
                        },
                        None => {
                            lemma_scan_steps_grow(s, c, sid, word, pos + 1);
                        },
                    }
                },
                Step::Delete(v) => {
                    match find_prev(c.prev_ids, c.prev_texts, s.tokens, word, 0) {
                        Some(i) => {
                            let id = c.prev_ids[i];
                            let a = s.article;
                            let b = a.set_word(
                                id as int,
                                WordView {
                                    outbound: a.tokens[id as int].outbound.push(c.rev),
                                    ..a.tokens[id as int]
                                },
                            );
                            assert forall|j: int| 0 <= j < a.tokens.len() implies same_word(
                                a.tokens[j],
                                #[trigger] b.tokens[j],
                            ) by {
                                assert(same_word(a.tokens[j], a.tokens[j]));
                                if j == id {
                                    lemma_prefix_push(a.tokens[j].outbound, c.rev);
                                }
                            }
                            let t = WordState {
                                article: b,
                                tokens: s.tokens.insert(id),
                                words: s.words.push(id),
                                used: s.used.update(pos, true),
                                ..s
                            };
                            lemma_scan_steps_grow(t, c, sid, word, pos + 1);
                            let u = scan_steps(t, c, sid, word, pos + 1).0;
                            lemma_cascaded_trans(a, b, u.article);
                            lemma_added_trans(a, b, u.article, c.rev);
                        },
                        None => {
                            lemma_scan_steps_grow(s, c, sid, word, pos + 1);
                        },
                    }
                },
                Step::Insert(v) => {
                    lemma_word_add_grows(s.article, sid, word, c.rev);
                },
            }
        }
    }
}

pub(crate) proof fn lemma_word_steps_grow(
    s: WordState,
    c: WordContext,
    ws: Seq<(usize, Seq<char>)>,
    k: int,
)
    requires
        forall|i: int| 0 <= i < ws.len() ==> (#[trigger] ws[i]).0 < s.article.sentences.len(),
        ids_below(c.prev_ids, s.article.tokens.len() as int),
    ensures
        cascaded(s.article, word_steps(s, c, ws, k).article),
        word_steps(s, c, ws, k).article.paragraphs == s.article.paragraphs,
        word_tokens_added(s, word_steps(s, c, ws, k), c.rev),
    decreases ws.len() - k,
{
    lemma_grow_refl(s.article);
    if 0 <= k < ws.len() {
        let (sid, word) = ws[k];
        lemma_scan_steps_grow(s, c, sid, word, 0);
        let u = scan_steps(s, c, sid, word, 0).0;
        let t = word_step(s, c, sid, word);
        lemma_word_add_grows(u.article, sid, word, c.rev);
        lemma_cascaded_trans(s.article, u.article, word_added(u.article, sid, word, c.rev));
        lemma_added_trans(s.article, u.article, word_added(u.article, sid, word, c.rev), c.rev);
        assert(cascaded(s.article, t.article));
        assert(ids_below(c.prev_ids, t.article.tokens.len() as int)) by {
            lemma_below_more(
                c.prev_ids,
                s.article.tokens.len() as int,
                t.article.tokens.len() as int,
            );
        }
        lemma_word_steps_grow(t, c, ws, k + 1);
        lemma_cascaded_trans(s.article, t.article, word_steps(t, c, ws, k + 1).article);
        lemma_added_trans(s.article, t.article, word_steps(t, c, ws, k + 1).article, c.rev);
    }
}

pub(crate) proof fn lemma_sentence_words_below(a: ArticleView, sids: Seq<usize>)
    requires
        ids_below(sids, a.sentences.len() as int),
    ensures
        forall|i: int|
            0 <= i < sentence_words(a, sids).len() ==> (#[trigger] sentence_words(a, sids)[i]).0
                < a.sentences.len(),
    decreases sids.len(),
{
    if sids.len() > 0 {
        assert forall|i: int| 0 <= i < sids.drop_last().len() implies (#[trigger] sids.drop_last()[i])
            < a.sentences.len() by {
            assert(sids.drop_last()[i] == sids[i]);
        }
        lemma_sentence_words_below(a, sids.drop_last());
        assert(sids[sids.len() - 1] < a.sentences.len());
        let head = sentence_words(a, sids.drop_last());
        let all = sentence_words(a, sids);
        assert forall|i: int| 0 <= i < all.len() implies (#[trigger] all[i]).0 < a.sentences.len() by {
            if i < head.len() {
                assert(all[i] == head[i]);
            } else {
                assert(all[i].0 == sids.last());
            }
        }
    }
}

pub(crate) proof fn lemma_not_in_below(ids: Seq<usize>, set: Set<usize>, n: int)
    requires
        ids_below(ids, n),
    ensures
        ids_below(not_in(ids, set), n),
    decreases ids.len(),
{
    if ids.len() > 0 {
        assert forall|i: int| 0 <= i < ids.drop_last().len() implies (#[trigger] ids.drop_last()[i])
            < n by {
            assert(ids.drop_last()[i] == ids[i]);
        }
        lemma_not_in_below(ids.drop_last(), set, n);
        assert(ids[ids.len() - 1] < n);
    }
}

/// The word level only adds to the arenas.
pub(crate) proof fn lemma_word_level_grows(
    a: ArticleView,
    curr: Seq<usize>,
    prev: Seq<usize>,
    suspect: bool,
    rev: u64,
    adds: nat,
    tokens: Set<usize>,
)
    requires
        forall|i: int|
            0 <= i < a.sentences.len() ==> ids_below(
                (#[trigger] a.sentences[i]).words,
                a.tokens.len() as int,
            ),
        ids_below(curr, a.sentences.len() as int),
        ids_below(prev, a.sentences.len() as int),
    ensures
        cascaded(a, word_level(a, curr, prev, suspect, rev, adds, tokens).article),
        word_level(a, curr, prev, suspect, rev, adds, tokens).article.paragraphs == a.paragraphs,
        ({
            let w = word_level(a, curr, prev, suspect, rev, adds, tokens);
            &&& tokens_added(a.tokens, w.article.tokens, rev)
            &&& w.article.tokens.len() == a.tokens.len() + w.adds - adds
            &&& w.vandalism ==> w.article == a
        }),
{
    lemma_grow_refl(a);
    let ws = sentence_words(a, curr);
    let ids = not_in(words_of(a.sentences, prev), tokens);
    lemma_sentence_words_below(a, curr);
    lemma_words_below(a.sentences, prev, a.tokens.len() as int);
    lemma_not_in_below(words_of(a.sentences, prev), tokens, a.tokens.len() as int);
    lemma_words_added_grow(a, ws, 0, rev);
    let c = WordContext {
        prev_ids: ids,
        prev_texts: word_values(a, ids),
        ops: transcript(word_values(a, ids), words_only(ws)),
        rev,
    };
    let s = WordState {
        article: a,
        tokens,
        words: Seq::empty(),
        used: Seq::new(c.ops.len(), |i: int| false),
        adds,
    };
    lemma_word_steps_grow(s, c, ws, 0);
}

/// The model of the outcome of the cascade.
#[verifier::ext_equal]
pub struct CascadeView {
    pub matched_paragraphs_prev: Seq<usize>,
    pub unmatched_paragraphs_prev: Seq<usize>,
    pub matched_sentences_prev: Seq<usize>,
    pub unmatched_sentences_prev: Seq<usize>,
    pub matched_words_prev: Seq<usize>,
    pub unmatched_paragraphs_curr: Seq<usize>,
    pub unmatched_sentences_curr: Seq<usize>,
    pub matched_token_ids: Set<usize>,
    pub vandalism: bool,
}

impl View for CascadeOutput {
    type V = CascadeView;

    open spec fn view(&self) -> CascadeView {
        CascadeView {
            matched_paragraphs_prev: self.matched_paragraphs_prev@,
            unmatched_paragraphs_prev: self.unmatched_paragraphs_prev@,
            matched_sentences_prev: self.matched_sentences_prev@,
            unmatched_sentences_prev: self.unmatched_sentences_prev@,
            matched_words_prev: self.matched_words_prev@,
            unmatched_paragraphs_curr: self.unmatched_paragraphs_curr@,
            unmatched_sentences_curr: self.unmatched_sentences_curr@,
            matched_token_ids: self.matched_token_ids@,
            vandalism: self.vandalism,
        }
    }
}

/// Nothing matched.
pub open spec fn nothing_matched() -> MatchedView {
    MatchedView { paragraphs: Set::empty(), sentences: Set::empty(), tokens: Set::empty() }
}

/// The whole cascade: the article, the current revision, and the outcome. The
/// sentence level runs where a paragraph is new, the word level where a sentence
/// is new. A text with a new paragraph is suspect.
pub open spec fn authorship(
    a: ArticleView,
    text: Seq<char>,
    prev: RevisionView,
    curr: RevisionView,
) -> (ArticleView, RevisionView, CascadeView) {
    let p = paragraph_level(a, text, prev, curr, nothing_matched());
    let left = paragraphs_left(prev, p.matched);
    let none = CascadeView {
        matched_paragraphs_prev: p.matched_prev,
        unmatched_paragraphs_prev: left,
        matched_sentences_prev: Seq::empty(),
        unmatched_sentences_prev: Seq::empty(),
        matched_words_prev: Seq::empty(),
        unmatched_paragraphs_curr: p.unmatched_curr,
        unmatched_sentences_curr: Seq::empty(),
        matched_token_ids: p.matched.tokens,
        vandalism: false,
    };
    if p.unmatched_curr.len() == 0 {
        (p.article, p.revision, none)
    } else {
        let (b, m, s) = sentence_level(p.article, p.unmatched_curr, left, p.matched);
        let out = CascadeView {
            matched_sentences_prev: s.2,
            unmatched_sentences_prev: s.1,
            unmatched_sentences_curr: s.0,
            matched_token_ids: m.tokens,
            ..none
        };
        if s.0.len() == 0 {
            (b, p.revision, out)
        } else {
            let w = word_level(
                b,
                s.0,
                s.1,
                p.revision.ordered_paragraphs.len() > 0,
                p.revision.id,
                p.revision.original_adds as nat,
                m.tokens,
            );
            (
                w.article,
                RevisionView { original_adds: w.adds as usize, ..p.revision },
                CascadeView {
                    matched_words_prev: w.words,
                    matched_token_ids: w.tokens,
                    vandalism: w.vandalism,
                    ..out
                },
            )
        }
    }
}

/// Whether all that the outcome lists is in the arenas.
pub open spec fn outcome_in(a: ArticleView, out: CascadeView) -> bool {
    &&& ids_below(out.matched_paragraphs_prev, a.paragraphs.len() as int)
    &&& ids_below(out.unmatched_paragraphs_prev, a.paragraphs.len() as int)
    &&& ids_below(out.unmatched_paragraphs_curr, a.paragraphs.len() as int)
    &&& ids_below(out.matched_sentences_prev, a.sentences.len() as int)
    &&& ids_below(out.unmatched_sentences_prev, a.sentences.len() as int)
    &&& ids_below(out.unmatched_sentences_curr, a.sentences.len() as int)
    &&& ids_below(out.matched_words_prev, a.tokens.len() as int)
}

/// Decides which tokens of a text, in lowercase, are reused from the past and
/// which are new.
pub fn determine_authorship(
    article: &mut Article,
    text_curr_lower: &str,
    revision_prev: &Revision,
    revision_curr: &mut Revision,
) -> (out: CascadeOutput)
    requires
        old(article)@.arenas_ok(),
        old(article)@.holds_revision(revision_prev@),
        old(article)@.holds_revision(old(revision_curr)@),
        old(revision_curr).original_adds <= old(article)@.tokens.len(),
    ensures
        (final(article)@, final(revision_curr)@, out@) == authorship(
            old(article)@,
            text_curr_lower@,
            revision_prev@,
            old(revision_curr)@,
        ),
        final(article)@.arenas_ok(),
        final(article)@.holds_revision(revision_prev@),
        final(article)@.holds_revision(final(revision_curr)@),
        outcome_in(final(article)@, out@),
        cascaded(old(article)@, final(article)@),
        tokens_added(old(article)@.tokens, final(article)@.tokens, old(revision_curr)@.id),
        final(article)@.tokens.len() - old(article)@.tokens.len()
            == final(revision_curr)@.original_adds - old(revision_curr)@.original_adds,
        out@.vandalism ==> final(article)@.tokens == old(article)@.tokens,
        final(revision_curr)@.id == old(revision_curr)@.id,
        final(revision_curr)@.editor == old(revision_curr)@.editor,
        final(revision_curr)@.timestamp == old(revision_curr)@.timestamp,
        final(revision_curr)@.length == old(revision_curr)@.length,
{
    let ghost a0 = article@;
    let ghost c0 = revision_curr@;
    let mut matched = MatchedSets::new();
    let pa = analyse_paragraphs_in_revision(
        article,
        text_curr_lower,
        revision_prev,
        revision_curr,
        &mut matched,
    );
    let ghost a1 = article@;
    proof {
        lemma_paragraph_steps_grow(
            ParagraphState {
                article: a0,
                revision: c0,
                matched: nothing_matched(),
                unmatched_curr: Seq::empty(),
                matched_prev: Seq::empty(),
            },
            revision_prev@,
            paragraphs_of(text_curr_lower@),
            0,
        );
    }
    let mut out = CascadeOutput {
        matched_paragraphs_prev: pa.matched_paragraphs_prev,
        unmatched_paragraphs_prev: pa.unmatched_paragraphs_prev,
        matched_sentences_prev: Vec::new(),
        unmatched_sentences_prev: Vec::new(),
        matched_words_prev: Vec::new(),
        unmatched_paragraphs_curr: pa.unmatched_paragraphs_curr,
        unmatched_sentences_curr: Vec::new(),
        matched_token_ids: HashSet::new(),
        vandalism: false,
    };
    proof {
        assert(out.matched_sentences_prev@ =~= Seq::empty());
        assert(out.unmatched_sentences_prev@ =~= Seq::empty());
        assert(out.matched_words_prev@ =~= Seq::empty());
        assert(out.unmatched_sentences_curr@ =~= Seq::empty());
    }
    if out.unmatched_paragraphs_curr.len() == 0 {
        out.matched_token_ids = matched.tokens;
        return out;
    }
    let sa = analyse_sentences_in_paragraphs(
        article,
        out.unmatched_paragraphs_curr.as_slice(),
        out.unmatched_paragraphs_prev.as_slice(),
        &mut matched,
    );
    let ghost a2 = article@;
    proof {
        lemma_sentence_paragraphs_grow(
            SentenceState {
                article: a1,
                matched: paragraph_level(
                    a0,
                    text_curr_lower@,
                    revision_prev@,
                    c0,
                    nothing_matched(),
                ).matched,
                unmatched_curr: Seq::empty(),
                matched_prev: Seq::empty(),
                total: 0,
            },
            out.unmatched_paragraphs_curr@,
            out.unmatched_paragraphs_prev@,
            0,
        );
        lemma_cascaded_trans(a0, a1, a2);
    }
    out.unmatched_sentences_curr = sa.unmatched_sentences_curr;
    out.unmatched_sentences_prev = sa.unmatched_sentences_prev;
    out.matched_sentences_prev = sa.matched_sentences_prev;
    let possible_vandalism = revision_curr.ordered_paragraphs.len() > 0;
    if out.unmatched_sentences_curr.len() > 0 {
        let ghost t2 = matched@.tokens;
        proof {
            lemma_word_level_grows(
                a2,
                out.unmatched_sentences_curr@,
                out.unmatched_sentences_prev@,
                possible_vandalism,
                revision_curr.id,
                revision_curr.original_adds as nat,
                t2,
            );
        }
        let (words, vandalism) = analyse_words_in_sentences(
            article,
            out.unmatched_sentences_curr.as_slice(),
            out.unmatched_sentences_prev.as_slice(),
            possible_vandalism,
            revision_curr,
            &mut matched,
        );
        proof {
            lemma_cascaded_trans(a0, a2, article@);
        }
        out.matched_words_prev = words;
        out.vandalism = vandalism;
    }
    out.matched_token_ids = matched.tokens;
    out
}

/// The sentences of the paragraphs `pids`, hash by hash.
pub open spec fn sentences_in(a: ArticleView, pids: Seq<usize>) -> Seq<usize>
    decreases pids.len(),
{
    if pids.len() == 0 {
        Seq::empty()
    } else {
        sentences_in(a, pids.drop_last()) + all_ids(a.paragraphs[pids.last() as int].sentences)
    }
}

/// The tokens that this revision may have deleted: those of the previous
/// sentences left over or, where there is none, of the previous paragraphs left
/// over.
pub open spec fn words_left(a: ArticleView, out: CascadeView) -> Seq<usize> {
    if out.unmatched_sentences_prev.len() > 0 {
        words_of(a.sentences, out.unmatched_sentences_prev)
    } else {
        words_of(a.sentences, sentences_in(a, out.unmatched_paragraphs_prev))
    }
}

/// The tokens that this revision may have kept: those of the matched paragraphs
/// and of the matched sentences.
pub open spec fn words_held(a: ArticleView, out: CascadeView) -> Seq<usize> {
    words_of(a.sentences, sentences_in(a, out.matched_paragraphs_prev)) + words_of(
        a.sentences,
        out.matched_sentences_prev,
    )
}

/// A token after its deletions are noted: an unmatched one, once for each time it
/// is left over.
pub open spec fn word_deleted(
    w: WordView,
    id: usize,
    left: Seq<usize>,
    matched: Set<usize>,
    rev: u64,
) -> WordView {
    if matched.contains(id) {
        w
    } else {
        WordView {
            outbound: w.outbound + Seq::new(count_of(left, id), |i: int| rev),
            ..w
        }
    }
}

/// A kept token after this revision is noted: it was last seen here and, where
/// the previous revision did not have it, came back here. One that this revision
/// deleted is left alone.
pub open spec fn word_kept(w: WordView, prev: u64, rev: u64) -> WordView {
    if w.outbound.len() > 0 && w.outbound.last() == rev {
        w
    } else {
        WordView {
            inbound: if w.last_rev_id != prev {
                w.inbound.push(rev)
            } else {
                w.inbound
            },
            last_rev_id: rev,
            ..w
        }
    }
}

/// A token after both are noted.
pub open spec fn word_recorded(
    w: WordView,
    id: usize,
    left: Seq<usize>,
    held: Seq<usize>,
    matched: Set<usize>,
    prev: u64,
    rev: u64,
) -> WordView {
    let d = word_deleted(w, id, left, matched, rev);
    if matched.contains(id) && held.contains(id) {
        word_kept(d, prev, rev)
    } else {
        d
    }
}

/// The article once deletions and returns of tokens are noted.
pub open spec fn recorded(a: ArticleView, out: CascadeView, prev: u64, rev: u64) -> ArticleView {
    if out.vandalism {
        a
    } else {
        let left = words_left(a, out);
        let held = words_held(a, out);
        ArticleView {
            tokens: Seq::new(
                a.tokens.len(),
                |i: int|
                    word_recorded(
                        a.tokens[i],
                        i as usize,
                        left,
                        held,
                        out.matched_token_ids,
                        prev,
                        rev,
                    ),
            ),
            ..a
        }
    }
}

/// The sentences of the paragraphs.
fn collect_sentences(article: &Article, pids: &Vec<ParagraphId>) -> (r: Vec<SentenceId>)
    requires
        article@.arenas_ok(),
        ids_below(pids@, article@.paragraphs.len() as int),
    ensures
        r@ == sentences_in(article@, pids@),
        ids_below(r@, article@.sentences.len() as int),
{
    let ghost a = article@;
    let mut r: Vec<usize> = Vec::new();
    let mut i: usize = 0;
    while i < pids.len()
        invariant
            i <= pids@.len(),
            a == article@,
            a.arenas_ok(),
            ids_below(pids@, a.paragraphs.len() as int),
            r@ == sentences_in(a, pids@.take(i as int)),
            ids_below(r@, a.sentences.len() as int),
        decreases pids@.len() - i,
    {
        let ids = article.paragraph(pids[i]).sentences.flat_ids();
        proof {
            lemma_all_ids_below(
                a.paragraphs[pids@[i as int] as int].sentences,
                a.sentences.len() as int,
            );
            assert(pids@.take(i + 1).drop_last() =~= pids@.take(i as int));
            assert(pids@.take(i + 1).last() == pids@[i as int]);
        }
        append_ids(&mut r, &ids);
        i = i + 1;
    }
    proof {
        assert(pids@.take(i as int) =~= pids@);
    }
    r
}

/// Notes the deletion of each unmatched token left over.
fn record_outbound(
    article: &mut Article,
    left: &Vec<TokenId>,
    matched_ids: &HashSet<TokenId>,
    rev: RevId,
)
    requires
        ids_below(left@, old(article)@.tokens.len() as int),
    ensures
        final(article)@ == (ArticleView {
            tokens: Seq::new(
                old(article)@.tokens.len(),
                |i: int|
                    word_deleted(
                        old(article)@.tokens[i],
                        i as usize,
                        left@,
                        matched_ids@,
                        rev,
                    ),
            ),
            ..old(article)@
        }),
{
    let ghost a = article@;
    let total: usize = article.tokens.len();
    let mut k: usize = 0;
    proof {
        assert forall|i: int| 0 <= i < a.tokens.len() implies #[trigger] article@.tokens[i]
            =~= word_deleted(a.tokens[i], i as usize, left@.take(0), matched_ids@, rev) by {}
        assert(article@ =~= ArticleView { tokens: article@.tokens, ..a });
    }
    while k < left.len()
        invariant
            k <= left@.len(),
            ids_below(left@, a.tokens.len() as int),
            article@ == (ArticleView { tokens: article@.tokens, ..a }),
            article@.tokens.len() == a.tokens.len(),
            a.tokens.len() == total,
            forall|i: int|
                0 <= i < a.tokens.len() ==> #[trigger] article@.tokens[i] == word_deleted(
                    a.tokens[i],
                    i as usize,
                    left@.take(k as int),
                    matched_ids@,
                    rev,
                ),
        decreases left@.len() - k,
    {
        let id = left[k];
        let ghost before = article@;
        if !matched_ids.contains(&id) {
            mark_deleted(article, id, rev);
        }
        proof {
            let t0 = left@.take(k as int);
            let t1 = left@.take(k + 1);
            assert(t1.drop_last() =~= t0);
            assert(t1.last() == id);
            assert forall|i: int| 0 <= i < a.tokens.len() implies #[trigger] article@.tokens[i]
                == word_deleted(a.tokens[i], i as usize, t1, matched_ids@, rev) by {
                assert(before.tokens[i] == word_deleted(
                    a.tokens[i],
                    i as usize,
                    t0,
                    matched_ids@,
                    rev,
                ));
                if i == id && !matched_ids@.contains(id) {
                    assert(article@.tokens[i].outbound =~= a.tokens[i].outbound + Seq::new(
                        count_of(t1, id),
                        |i: int| rev,
                    ));
                }
            }
            assert(article@ =~= ArticleView { tokens: article@.tokens, ..a });
        }
        k = k + 1;
    }
    proof {
        assert(left@.take(k as int) =~= left@);
        assert(article@.tokens =~= Seq::new(
            a.tokens.len(),
            |i: int| word_deleted(a.tokens[i], i as usize, left@, matched_ids@, rev),
        ));
    }
}

/// Notes a kept token, the first time it is met.
fn update_inbound_and_last_rev_id(
    article: &mut Article,
    id: TokenId,
    matched_ids: &HashSet<TokenId>,
    processed: &mut HashSet<TokenId>,
    prev: RevId,
    rev: RevId,
)
    requires
        id < old(article)@.tokens.len(),
    ensures
        ({
            let fresh = matched_ids@.contains(id) && !old(processed)@.contains(id);
            &&& final(article)@ == if fresh {
                old(article)@.set_word(
                    id as int,
                    word_kept(old(article)@.tokens[id as int], prev, rev),
                )
            } else {
                old(article)@
            }
            &&& final(processed)@ == if fresh {
                old(processed)@.insert(id)
            } else {
                old(processed)@
            }
        }),
{
    let ghost a = article@;
    if !matched_ids.contains(&id) {
        return;
    }
    if processed.contains(&id) {
        return;
    }
    processed.insert(id);
    let n: usize = article.word(id).outbound.len();
    if n > 0 && article.word(id).outbound[n - 1] == rev {
        proof {
            assert(a.set_word(id as int, a.tokens[id as int]) =~= a) by {
                assert(a.tokens.update(id as int, a.tokens[id as int]) =~= a.tokens);
            }
        }
        return;
    }
    let w = article.word_mut(id);
    if w.last_rev_id != prev {
        w.inbound.push(rev);
    }
    w.last_rev_id = rev;
}

/// Notes each kept token once.
fn record_inbound(
    article: &mut Article,
    held: &Vec<TokenId>,
    matched_ids: &HashSet<TokenId>,
    prev: RevId,
    rev: RevId,
)
    requires
        ids_below(held@, old(article)@.tokens.len() as int),
    ensures
        final(article)@ == (ArticleView {
            tokens: Seq::new(
                old(article)@.tokens.len(),
                |i: int|
                    if matched_ids@.contains(i as usize) && held@.contains(i as usize) {
                        word_kept(old(article)@.tokens[i], prev, rev)
                    } else {
                        old(article)@.tokens[i]
                    },
            ),
            ..old(article)@
        }),
{
    let ghost a = article@;
    let total: usize = article.tokens.len();
    let mut processed: HashSet<usize> = HashSet::new();
    let mut k: usize = 0;
    proof {
        assert(article@ =~= ArticleView { tokens: article@.tokens, ..a });
    }
    while k < held.len()
        invariant
            k <= held@.len(),
            ids_below(held@, a.tokens.len() as int),
            article@ == (ArticleView { tokens: article@.tokens, ..a }),
            article@.tokens.len() == a.tokens.len(),
            a.tokens.len() == total,
            forall|id: usize| #[trigger]
                processed@.contains(id) <==> matched_ids@.contains(id) && held@.take(
                    k as int,
                ).contains(id),
            forall|i: int|
                0 <= i < a.tokens.len() ==> #[trigger] article@.tokens[i] == if processed@.contains(
                    i as usize,
                ) {
                    word_kept(a.tokens[i], prev, rev)
                } else {
                    a.tokens[i]
                },
        decreases held@.len() - k,
    {
        let id = held[k];
        let ghost before = article@;
        let ghost p0 = processed@;
        update_inbound_and_last_rev_id(article, id, matched_ids, &mut processed, prev, rev);
        proof {
            let t0 = held@.take(k as int);
            let t1 = held@.take(k + 1);
            assert forall|x: usize| #[trigger] t1.contains(x) <==> t0.contains(x) || x == id by {
                if t0.contains(x) {
                    let j = choose|j: int| 0 <= j < t0.len() && t0[j] == x;
                    assert(t1[j] == x);
                }
                if t1.contains(x) {
                    let j = choose|j: int| 0 <= j < t1.len() && t1[j] == x;
                    if j < k {
                        assert(t0[j] == x);
                    }
                }
                assert(t1[k as int] == id);
            }
            assert forall|x: usize| #[trigger] processed@.contains(x) <==> matched_ids@.contains(x)
                && t1.contains(x) by {
                assert(p0.contains(x) <==> matched_ids@.contains(x) && t0.contains(x));
                assert(p0.contains(id) <==> matched_ids@.contains(id) && t0.contains(id));
            }
            assert forall|i: int| 0 <= i < a.tokens.len() implies #[trigger] article@.tokens[i]
                == if processed@.contains(i as usize) {
                word_kept(a.tokens[i], prev, rev)
            } else {
                a.tokens[i]
            } by {
                assert(before.tokens[i] == if p0.contains(i as usize) {
                    word_kept(a.tokens[i], prev, rev)
                } else {
                    a.tokens[i]
                });
            }
            assert(article@ =~= ArticleView { tokens: article@.tokens, ..a });
        }
        k = k + 1;
    }
    proof {
        assert(held@.take(k as int) =~= held@);
        assert(article@.tokens =~= Seq::new(
            a.tokens.len(),
            |i: int|
                if matched_ids@.contains(i as usize) && held@.contains(i as usize) {
                    word_kept(a.tokens[i], prev, rev)
                } else {
                    a.tokens[i]
                },
        ));
    }
}

/// Notes on the tokens what the cascade found: which of them this revision
/// deleted, and which it kept or brought back.
pub fn record_inbound_outbound(
    article: &mut Article,
    out: &CascadeOutput,
    revision_prev_id: RevId,
    revision_curr_id: RevId,
)
    requires
        old(article)@.arenas_ok(),
        outcome_in(old(article)@, out@),
    ensures
        final(article)@ == recorded(old(article)@, out@, revision_prev_id, revision_curr_id),
{
    if out.vandalism {
        return;
    }
    let ghost a = article@;
    let ghost n = a.tokens.len() as int;
    let left = if out.unmatched_sentences_prev.len() > 0 {
        proof {
            lemma_words_below(a.sentences, out.unmatched_sentences_prev@, n);
        }
        article.words_in(&out.unmatched_sentences_prev)
    } else {
        let sids = collect_sentences(article, &out.unmatched_paragraphs_prev);
        proof {
            lemma_words_below(a.sentences, sids@, n);
        }
        article.words_in(&sids)
    };
    let sids = collect_sentences(article, &out.matched_paragraphs_prev);
    let mut held = article.words_in(&sids);
    let more = article.words_in(&out.matched_sentences_prev);
    proof {
        lemma_words_below(a.sentences, sids@, n);
        lemma_words_below(a.sentences, out.matched_sentences_prev@, n);
    }
    append_ids(&mut held, &more);
    record_outbound(article, &left, &out.matched_token_ids, revision_curr_id);
    record_inbound(
        article,
        &held,
        &out.matched_token_ids,
        revision_prev_id,
        revision_curr_id,
    );
    proof {
        assert(article@.tokens =~= recorded(
            a,
            out@,
            revision_prev_id,
            revision_curr_id,
        ).tokens);
        assert(article@ =~= recorded(a, out@, revision_prev_id, revision_curr_id));
    }
}

proof fn lemma_sentence_steps_tables(
    s: SentenceState,
    pid: usize,
    prevs: Seq<usize>,
    raws: Seq<Seq<char>>,
    k: int,
)
    ensures
        same_tables(s.article, sentence_steps(s, pid, prevs, raws, k).article),
        sentence_steps(s, pid, prevs, raws, k).article.tokens == s.article.tokens,
    decreases raws.len() - k,
{
    if 0 <= k < raws.len() {
        lemma_sentence_steps_tables(
            sentence_step(s, pid, prevs, raws[k]),
            pid,
            prevs,
            raws,
            k + 1,
        );
    }
}

proof fn lemma_sentence_paragraphs_tables(
    s: SentenceState,
    pids: Seq<usize>,
    prevs: Seq<usize>,
    k: int,
)
    ensures
        same_tables(s.article, sentence_paragraphs(s, pids, prevs, k).article),
        sentence_paragraphs(s, pids, prevs, k).article.tokens == s.article.tokens,
    decreases pids.len() - k,
{
    if 0 <= k < pids.len() {
        let raws = sentences_of(s.article.paragraphs[pids[k] as int].value);
        lemma_sentence_steps_tables(s, pids[k], prevs, raws, 0);
        lemma_sentence_paragraphs_tables(
            sentence_steps(s, pids[k], prevs, raws, 0),
            pids,
            prevs,
            k + 1,
        );
    }
}

proof fn lemma_words_added_tables(
    a: ArticleView,
    ws: Seq<(usize, Seq<char>)>,
    k: int,
    rev: u64,
)
    ensures
        same_tables(a, words_added(a, ws, k, rev)),
    decreases ws.len() - k,
{
    if 0 <= k < ws.len() {
        lemma_words_added_tables(word_added(a, ws[k].0, ws[k].1, rev), ws, k + 1, rev);
    }
}

proof fn lemma_scan_steps_tables(s: WordState, c: WordContext, sid: usize, word: Seq<char>, pos: int)
    ensures
        same_tables(s.article, scan_steps(s, c, sid, word, pos).0.article),
    decreases c.ops.len() - pos,
{
    if 0 <= pos < c.ops.len() {
        lemma_scan_steps_tables(s, c, sid, word, pos + 1);
        if !(s.used[pos] || step_text(c.ops[pos]) != word) {
            if let Step::Delete(v) = c.ops[pos] {
                match find_prev(c.prev_ids, c.prev_texts, s.tokens, word, 0) {
                    Some(i) => {
                        let id = c.prev_ids[i];
                        lemma_scan_steps_tables(
                            WordState {
                                article: s.article.set_word(
                                    id as int,
                                    WordView {
                                        outbound: s.article.tokens[id as int].outbound.push(c.rev),
                                        ..s.article.tokens[id as int]
                                    },
                                ),
                                tokens: s.tokens.insert(id),
                                words: s.words.push(id),
                                used: s.used.update(pos, true),
                                ..s
                            },
                            c,
                            sid,
                            word,
                            pos + 1,
                        );
                    },
                    None => {},
                }
            }
        }
    }
}

proof fn lemma_word_steps_tables(
    s: WordState,
    c: WordContext,
    ws: Seq<(usize, Seq<char>)>,
    k: int,
)
    ensures
        same_tables(s.article, word_steps(s, c, ws, k).article),
    decreases ws.len() - k,
{
    if 0 <= k < ws.len() {
        lemma_scan_steps_tables(s, c, ws[k].0, ws[k].1, 0);
        lemma_word_steps_tables(word_step(s, c, ws[k].0, ws[k].1), c, ws, k + 1);
    }
}

/// The cascade touches nothing but the arenas of the article and what the revision is
/// made of.
pub(crate) proof fn lemma_cascade_tables(
    a: ArticleView,
    text: Seq<char>,
    prev: RevisionView,
    curr: RevisionView,
)
    ensures
        ({
            let (b, r, out) = authorship(a, text, prev, curr);
            &&& same_tables(a, b)
            &&& r.id == curr.id
            &&& r.editor == curr.editor
            &&& r.timestamp == curr.timestamp
            &&& r.length == curr.length
            &&& out.vandalism ==> b.tokens == a.tokens
        }),
{
    let p0 = ParagraphState {
        article: a,
        revision: curr,
        matched: nothing_matched(),
        unmatched_curr: Seq::empty(),
        matched_prev: Seq::empty(),
    };
    let p = paragraph_level(a, text, prev, curr, nothing_matched());
    let left = paragraphs_left(prev, p.matched);
    lemma_paragraph_steps_grow(p0, prev, paragraphs_of(text), 0);
    let s0 = SentenceState {
        article: p.article,
        matched: p.matched,
        unmatched_curr: Seq::empty(),
        matched_prev: Seq::empty(),
        total: 0,
    };
    lemma_sentence_paragraphs_tables(s0, p.unmatched_curr, left, 0);
    if p.unmatched_curr.len() > 0 {
        let (b, m, s) = sentence_level(p.article, p.unmatched_curr, left, p.matched);
        let ws = sentence_words(b, s.0);
        let ids = not_in(words_of(b.sentences, s.1), m.tokens);
        let old_texts = word_values(b, ids);
        let c = WordContext {
            prev_ids: ids,
            prev_texts: old_texts,
            ops: transcript(old_texts, words_only(ws)),
            rev: p.revision.id,
        };
        lemma_words_added_tables(b, ws, 0, p.revision.id);
        lemma_word_steps_tables(
            WordState {
                article: b,
                tokens: m.tokens,
                words: Seq::empty(),
                used: Seq::new(c.ops.len(), |i: int| false),
                adds: p.revision.original_adds as nat,
            },
            c,
            ws,
            0,
        );
    }
}

/// A text in which no word comes twice is not taken for copied text.
pub proof fn unrepeated_words_are_not_dense(words: Seq<Seq<char>>)
    requires
        forall|i: int, k: int| 0 <= i < k < words.len() ==> words[i] != words[k],
    ensures
        !is_dense(words),
{
    lemma_counted_distinct(words);
}

proof fn lemma_counted_distinct(words: Seq<Seq<char>>)
    requires
        forall|i: int, k: int| 0 <= i < k < words.len() ==> words[i] != words[k],
    ensures
        distinct(counted(words)) == counted(words),
        forall|v: Seq<char>| #[trigger] counted(words).contains(v) ==> words.contains(v),
    decreases words.len(),
{
    if words.len() > 0 {
        let less = words.drop_last();
        let last = words.last();
        lemma_counted_distinct(less);
        assert(!counted(less).contains(last)) by {
            if counted(less).contains(last) {
                let i = choose|i: int| 0 <= i < less.len() && less[i] == last;
                assert(words[i] == words[words.len() - 1]);
            }
        }
        assert forall|v: Seq<char>| #[trigger] counted(words).contains(v) implies words.contains(
            v,
        ) by {
            if counted(less).contains(v) {
                let i = choose|i: int| 0 <= i < less.len() && less[i] == v;
                assert(words[i] == v);
            } else {
                let c = counted(words);
                let i = choose|i: int| 0 <= i < c.len() && c[i] == v;
                if i < counted(less).len() {
                    assert(counted(less)[i] == v);
                }
                assert(words[words.len() - 1] == v);
            }
        }
        if !is_structural(last) {
            assert(counted(words).drop_last() =~= counted(less));
        }
    }
}

/// One word over and over is copied text as soon as it comes more than 20 times. The
/// signs that tables and lists are made of do not count.
pub proof fn one_word_repeated_is_dense(words: Seq<Seq<char>>, word: Seq<char>)
    requires
        forall|i: int| 0 <= i < words.len() ==> #[trigger] words[i] == word,
    ensures
        !is_structural(word) ==> (is_dense(words) <==> words.len() > 20),
        is_structural(word) ==> !is_dense(words),
{
    lemma_counted_one(words, word);
}

proof fn lemma_counted_one(words: Seq<Seq<char>>, word: Seq<char>)
    requires
        forall|i: int| 0 <= i < words.len() ==> #[trigger] words[i] == word,
    ensures
        is_structural(word) ==> counted(words) == Seq::<Seq<char>>::empty(),
        !is_structural(word) ==> counted(words) == words && distinct(words).len() == (
        if words.len() == 0 {
            0int
        } else {
            1
        }),
        !is_structural(word) && words.len() > 0 ==> distinct(words) == seq![word],
    decreases words.len(),
{
    if words.len() > 0 {
        let less = words.drop_last();
        assert forall|i: int| 0 <= i < less.len() implies #[trigger] less[i] == word by {
            assert(less[i] == words[i]);
        }
        lemma_counted_one(less, word);
        assert(words[words.len() - 1] == word);
        if !is_structural(word) {
            assert(counted(words) =~= words);
            if less.len() > 0 {
                assert(distinct(less)[0] == word);
                assert(distinct(less).contains(word));
            } else {
                assert(distinct(less) =~= Seq::empty());
                assert(distinct(words) =~= seq![word]);
            }
        }
    } else {
        assert(counted(words) =~= words);
    }
}

/// A word that is not there yet never makes a text dense.
pub proof fn a_new_word_makes_less_dense(words: Seq<Seq<char>>, word: Seq<char>)
    requires
        !is_dense(words),
        !words.contains(word),
    ensures
        !is_dense(words.push(word)),
{
    let more = words.push(word);
    assert(more.drop_last() =~= words);
    lemma_counted_among(words);
    if !is_structural(word) {
        let c = counted(words);
        assert(!c.contains(word));
        assert(!distinct(c).contains(word)) by {
            lemma_distinct_among(c);
        }
        assert(counted(more).drop_last() =~= c);
        assert(distinct(counted(more)) == distinct(c).push(word));
        if c.len() == 0 {
            assert(distinct(c) =~= Seq::empty());
        }
    }
}

proof fn lemma_counted_among(words: Seq<Seq<char>>)
    ensures
        forall|v: Seq<char>| #[trigger] counted(words).contains(v) ==> words.contains(v),
    decreases words.len(),
{
    if words.len() > 0 {
        let less = words.drop_last();
        lemma_counted_among(less);
        assert forall|v: Seq<char>| #[trigger] counted(words).contains(v) implies words.contains(
            v,
        ) by {
            let c = counted(words);
            let i = choose|i: int| 0 <= i < c.len() && c[i] == v;
            if i < counted(less).len() {
                assert(counted(less)[i] == v);
                assert(counted(less).contains(v));
                let k = choose|k: int| 0 <= k < less.len() && less[k] == v;
                assert(words[k] == v);
            } else {
                assert(words[words.len() - 1] == v);
            }
        }
    }
}

proof fn lemma_distinct_among(s: Seq<Seq<char>>)
    ensures
        forall|v: Seq<char>| #[trigger] distinct(s).contains(v) ==> s.contains(v),
    decreases s.len(),
{
    if s.len() > 0 {
        let less = s.drop_last();
        lemma_distinct_among(less);
        assert forall|v: Seq<char>| #[trigger] distinct(s).contains(v) implies s.contains(v) by {
            let d = distinct(s);
            let i = choose|i: int| 0 <= i < d.len() && d[i] == v;
            if i < distinct(less).len() {
                assert(distinct(less)[i] == v);
                assert(distinct(less).contains(v));
                let k = choose|k: int| 0 <= k < less.len() && less[k] == v;
                assert(s[k] == v);
            } else {
                assert(s[s.len() - 1] == v);
            }
        }
    }
}

} // verus!
