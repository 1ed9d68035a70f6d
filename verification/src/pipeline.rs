//! The analysis of one revision: vandalism checks, the cascade, and the record of
//! what it found.
use crate::buckets::{with_id, Entries};
use crate::cascade::{
    authorship, determine_authorship, lemma_cascade_tables, record_inbound_outbound, recorded,
    word_deleted, words_left, CascadeView,
};
use crate::outside::{lowercase, md5_hex, to_lowercase};
use crate::spam::{hash_matches_known_spam, is_shrink, length_shrink_is_vandalism};
use crate::structures::{
    arenas_grow, entries_below, ids_below, lemma_grow_refl, lemma_grow_trans, lemma_prefix_push,
    lemma_prefix_self, no_revision, paragraphs_grow, revision_views, same_word, sentences_grow, tokens_added,
    Article, ArticleView, ParagraphView, RevId, Revision, RevisionView, SentenceView,
};
use crate::text::{
    chars_of, concat_text, decimal, decimal_text, is_digit, reading_undoes_writing,
};
use crate::tokenize::hash_md5;
use vstd::prelude::*;

verus! {

broadcast use vstd::std_specs::hash::group_hash_axioms;

/// One revision as it comes in. Revisions whose text is hidden, missing or
/// deleted are the caller's to leave out.
pub struct RevisionInput {
    pub rev_id: RevId,
    pub timestamp: String,
    pub text: String,
    /// The content hash that came with the revision; the digest of the text
    /// stands in for it.
    pub sha1: Option<String>,
    /// The edit summary; an empty one counts as none.
    pub comment: Option<String>,
    pub minor: bool,
    /// 0 for an anonymous editor, more for a registered one.
    pub user_id: Option<u64>,
    pub user_name: Option<String>,
}

/// The text of an optional string.
pub open spec fn opt_text(s: Option<String>) -> Option<Seq<char>> {
    match s {
        Some(v) => Some(v@),
        None => None,
    }
}

/// The model of an incoming revision.
pub struct InputView {
    pub rev_id: u64,
    pub timestamp: Seq<char>,
    pub text: Seq<char>,
    pub sha1: Option<Seq<char>>,
    pub comment: Option<Seq<char>>,
    pub minor: bool,
    pub user_id: Option<u64>,
    pub user_name: Option<Seq<char>>,
}

impl View for RevisionInput {
    type V = InputView;

    open spec fn view(&self) -> InputView {
        InputView {
            rev_id: self.rev_id,
            timestamp: self.timestamp@,
            text: self.text@,
            sha1: opt_text(self.sha1),
            comment: opt_text(self.comment),
            minor: self.minor,
            user_id: self.user_id,
            user_name: opt_text(self.user_name),
        }
    }
}

/// Why a revision is taken for vandalism.
#[derive(Debug, Clone, Copy, PartialEq, Eq, Structural)]
pub enum VandalismReason {
    /// Its content hash is that of earlier vandalism.
    HashMatch,
    /// It cut a long text short.
    LengthShrink,
    /// Its new text repeats itself.
    TokenDensity,
}

/// What became of a revision.
#[derive(Debug, Clone, Copy, PartialEq, Eq, Structural)]
pub enum RevisionOutcome {
    /// It is part of the article's history.
    Stored,
    /// It is left out of the history. What the cascade allocated for it stays in
    /// the arenas, where nothing refers to it.
    Vandalism(VandalismReason),
}

/// The editor of a revision: `0|` and the name of an anonymous one, the id of a
/// registered one, nothing where the id is missing.
pub open spec fn editor_of(user_id: Option<u64>, user_name: Option<Seq<char>>) -> Seq<char> {
    match user_id {
        Some(id) => if id == 0 {
            match user_name {
                Some(n) => "0|"@ + n,
                None => "0|"@,
            }
        } else {
            decimal(id as nat)
        },
        None => Seq::empty(),
    }
}

/// The editor of a revision.
pub fn derive_editor(user_id: Option<u64>, user_name: Option<&str>) -> (r: String)
    ensures
        r@ == editor_of(
            user_id,
            match user_name {
                Some(n) => Some(n@),
                None => None,
            },
        ),
{
    match user_id {
        Some(id) => if id == 0 {
            match user_name {
                Some(n) => concat_text("0|", n),
                None => "0|".to_owned(),
            }
        } else {
            decimal_text(id)
        },
        None => String::new(),
    }
}

/// The content hash of a revision.
pub open spec fn content_hash(i: InputView) -> Seq<char> {
    match i.sha1 {
        Some(h) => h,
        None => md5_hex(i.text),
    }
}

/// Whether the revision has an edit summary.
pub open spec fn has_comment(i: InputView) -> bool {
    i.comment is Some && i.comment->0.len() > 0
}

/// The revision that a new one is compared with.
pub open spec fn last_good(a: ArticleView) -> RevisionView {
    if a.revisions.contains_key(a.last_good_rev_id) {
        a.revisions[a.last_good_rev_id]
    } else {
        no_revision()
    }
}

/// The revision before the cascade fills it.
pub open spec fn blank_revision(i: InputView) -> RevisionView {
    RevisionView {
        id: i.rev_id,
        editor: editor_of(i.user_id, i.user_name),
        timestamp: i.timestamp,
        length: i.text.len() as usize,
        ..no_revision()
    }
}

/// The paragraphs `pids`, from position `k` on, filed with the article, and their
/// texts dropped.
pub open spec fn paragraphs_filed(a: ArticleView, pids: Seq<usize>, k: int) -> ArticleView
    decreases pids.len() - k,
{
    if k < 0 || k >= pids.len() {
        a
    } else {
        let p = a.paragraphs[pids[k] as int];
        let b = ArticleView {
            paragraphs_ht: with_id(a.paragraphs_ht, p.hash_value, pids[k]),
            ..a.set_paragraph(pids[k] as int, ParagraphView { value: Seq::empty(), ..p })
        };
        paragraphs_filed(b, pids, k + 1)
    }
}

/// The sentences `sids`, from position `k` on, filed with the article, and their
/// texts dropped.
pub open spec fn sentences_filed(a: ArticleView, sids: Seq<usize>, k: int) -> ArticleView
    decreases sids.len() - k,
{
    if k < 0 || k >= sids.len() {
        a
    } else {
        let s = a.sentences[sids[k] as int];
        let b = ArticleView {
            sentences_ht: with_id(a.sentences_ht, s.hash_value, sids[k]),
            ..a.set_sentence(sids[k] as int, SentenceView { value: Seq::empty(), ..s })
        };
        sentences_filed(b, sids, k + 1)
    }
}

/// The article once a revision is taken for vandalism before the cascade ran.
pub open spec fn spam_noted(a: ArticleView, i: InputView) -> ArticleView {
    ArticleView {
        spam_ids: a.spam_ids.push(i.rev_id),
        spam_hashes: a.spam_hashes.insert(content_hash(i)),
        ..a
    }
}

/// The article once the revision `r` is stored.
pub open spec fn revision_stored(a: ArticleView, id: u64, r: RevisionView) -> ArticleView {
    ArticleView {
        last_good_rev_id: id,
        ordered_revisions: a.ordered_revisions.push(id),
        revisions: a.revisions.insert(id, r),
        ..a
    }
}

/// The article after an incoming revision, and what became of the revision.
pub open spec fn analysed(a: ArticleView, i: InputView) -> (ArticleView, RevisionOutcome) {
    let prev = last_good(a);
    if a.spam_hashes.contains(content_hash(i)) {
        (
            ArticleView { spam_ids: a.spam_ids.push(i.rev_id), ..a },
            RevisionOutcome::Vandalism(VandalismReason::HashMatch),
        )
    } else if is_shrink(prev.length as int, i.text.len() as int, has_comment(i), i.minor) {
        (spam_noted(a, i), RevisionOutcome::Vandalism(VandalismReason::LengthShrink))
    } else {
        let (b, r, out) = authorship(a, lowercase(i.text), prev, blank_revision(i));
        if out.vandalism {
            (spam_noted(b, i), RevisionOutcome::Vandalism(VandalismReason::TokenDensity))
        } else {
            let c = recorded(b, out, prev.id, i.rev_id);
            let d = paragraphs_filed(c, out.unmatched_paragraphs_curr, 0);
            let e = sentences_filed(d, out.unmatched_sentences_curr, 0);
            (revision_stored(e, i.rev_id, r), RevisionOutcome::Stored)
        }
    }
}

/// `b` is `a` with the revision among the spam and everything that the history is
/// read from unchanged.
pub open spec fn history_kept(a: ArticleView, b: ArticleView, i: InputView) -> bool {
    &&& b.revisions == a.revisions
    &&& b.ordered_revisions == a.ordered_revisions
    &&& b.last_good_rev_id == a.last_good_rev_id
    &&& b.paragraphs_ht == a.paragraphs_ht
    &&& b.sentences_ht == a.sentences_ht
    &&& b.spam_ids == a.spam_ids.push(i.rev_id)
    &&& b.spam_hashes == a.spam_hashes.insert(content_hash(i))
    &&& b.title == a.title
    &&& b.page_id == a.page_id
    &&& b.tokens == a.tokens
}

/// `b` is `a` with the revision at the end of the history, every other revision as
/// it was, and no new spam. Every new token is the revision's, and it counts them.
pub open spec fn history_extended(a: ArticleView, b: ArticleView, i: InputView) -> bool {
    &&& b.ordered_revisions == a.ordered_revisions.push(i.rev_id)
    &&& b.last_good_rev_id == i.rev_id
    &&& b.revisions.contains_key(i.rev_id)
    &&& b.revisions == a.revisions.insert(i.rev_id, b.revisions[i.rev_id])
    &&& b.revisions[i.rev_id].id == i.rev_id
    &&& b.revisions[i.rev_id].editor == editor_of(i.user_id, i.user_name)
    &&& b.revisions[i.rev_id].timestamp == i.timestamp
    &&& b.revisions[i.rev_id].length == i.text.len()
    &&& b.revisions[i.rev_id].original_adds == b.tokens.len() - a.tokens.len()
    &&& tokens_added(a.tokens, b.tokens, i.rev_id)
    &&& b.spam_ids == a.spam_ids
    &&& b.spam_hashes == a.spam_hashes
    &&& b.title == a.title
    &&& b.page_id == a.page_id
}

/// Recording a revision keeps what a token is, and only adds to its lists.
proof fn lemma_recorded_grows(a: ArticleView, out: CascadeView, prev: u64, rev: u64)
    ensures
        arenas_grow(a, recorded(a, out, prev, rev)),
{
    lemma_grow_refl(a);
    if !out.vandalism {
        let b = recorded(a, out, prev, rev);
        let left = words_left(a, out);
        assert forall|i: int| 0 <= i < a.tokens.len() implies same_word(
            a.tokens[i],
            #[trigger] b.tokens[i],
        ) by {
            let w = a.tokens[i];
            let d = word_deleted(w, i as usize, left, out.matched_token_ids, rev);
            assert(w.outbound.is_prefix_of(d.outbound));
            lemma_prefix_self(w.inbound);
            lemma_prefix_push(w.inbound, rev);
        }
    }
}

proof fn lemma_recorded_ok(a: ArticleView, out: CascadeView, prev: u64, rev: u64)
    requires
        a.arenas_ok(),
        a.tokens.len() <= usize::MAX,
    ensures
        recorded(a, out, prev, rev).arenas_ok(),
{
    let b = recorded(a, out, prev, rev);
    assert forall|i: int| 0 <= i < b.tokens.len() implies (#[trigger] b.tokens[i]).token_id == i by {
        assert(a.tokens[i].token_id == i);
    }
}

proof fn lemma_filed_below(e: Entries, k: Seq<char>, id: usize, n: int)
    requires
        entries_below(e, n),
        id < n,
    ensures
        entries_below(with_id(e, k, id), n),
{
    crate::buckets::lemma_position(e, k);
    crate::structures::lemma_bucket_below(e, k, n);
    let f = with_id(e, k, id);
    assert forall|i: int| 0 <= i < f.len() implies ids_below((#[trigger] f[i]).1, n) by {
        if i < e.len() && i != crate::buckets::position(e, k) {
            assert(f[i] == e[i]);
        }
    }
}

/// What filing leaves alone.
spec fn same_rest(a: ArticleView, b: ArticleView) -> bool {
    &&& a.title == b.title
    &&& a.page_id == b.page_id
    &&& a.last_good_rev_id == b.last_good_rev_id
    &&& a.spam_ids == b.spam_ids
    &&& a.spam_hashes == b.spam_hashes
}

/// Files the new paragraphs with the article and drops their texts.
fn file_paragraphs(article: &mut Article, pids: &Vec<usize>)
    requires
        old(article)@.arenas_ok(),
        ids_below(pids@, old(article)@.paragraphs.len() as int),
    ensures
        final(article)@ == paragraphs_filed(old(article)@, pids@, 0),
        final(article)@.arenas_ok(),
        final(article)@.paragraphs.len() == old(article)@.paragraphs.len(),
        final(article)@.sentences == old(article)@.sentences,
        final(article)@.tokens == old(article)@.tokens,
        final(article)@.revisions == old(article)@.revisions,
        final(article)@.ordered_revisions == old(article)@.ordered_revisions,
        arenas_grow(old(article)@, final(article)@),
        same_rest(old(article)@, final(article)@),
{
    let ghost a = article@;
    proof {
        lemma_grow_refl(a);
    }
    let mut k: usize = 0;
    while k < pids.len()
        invariant
            k <= pids@.len(),
            ids_below(pids@, a.paragraphs.len() as int),
            article@.arenas_ok(),
            article@.paragraphs.len() == a.paragraphs.len(),
            article@.sentences == a.sentences,
            article@.tokens == a.tokens,
            article@.revisions == a.revisions,
            article@.ordered_revisions == a.ordered_revisions,
            paragraphs_filed(article@, pids@, k as int) == paragraphs_filed(a, pids@, 0),
            arenas_grow(a, article@),
            same_rest(a, article@),
        decreases pids@.len() - k,
    {
        let ghost b = article@;
        let id = pids[k];
        let hash = article.paragraph(id).hash_value.clone();
        article.paragraphs_ht.push(&hash, id);
        let p = article.paragraph_mut(id);
        p.value = String::new();
        proof {
            let q = b.paragraphs[id as int];
            let goal = ArticleView {
                paragraphs_ht: with_id(b.paragraphs_ht, q.hash_value, id),
                ..b.set_paragraph(id as int, ParagraphView { value: Seq::empty(), ..q })
            };
            assert(article@.paragraphs =~= goal.paragraphs);
            assert(article@ =~= goal);
            lemma_filed_below(
                b.paragraphs_ht,
                q.hash_value,
                id,
                b.paragraphs.len() as int,
            );
            assert forall|i: int| 0 <= i < article@.paragraphs.len() implies entries_below(
                (#[trigger] article@.paragraphs[i]).sentences,
                article@.sentences.len() as int,
            ) by {
                assert(entries_below(b.paragraphs[i].sentences, b.sentences.len() as int));
            }
            lemma_grow_refl(b);
            assert(paragraphs_grow(b.paragraphs, article@.paragraphs)) by {
                lemma_prefix_self(q.ordered_sentences);
            }
            lemma_grow_trans(a, b, article@);
        }
        k = k + 1;
    }
}

/// Files the new sentences with the article and drops their texts.
fn file_sentences(article: &mut Article, sids: &Vec<usize>)
    requires
        old(article)@.arenas_ok(),
        ids_below(sids@, old(article)@.sentences.len() as int),
    ensures
        final(article)@ == sentences_filed(old(article)@, sids@, 0),
        final(article)@.arenas_ok(),
        final(article)@.paragraphs == old(article)@.paragraphs,
        final(article)@.tokens == old(article)@.tokens,
        final(article)@.revisions == old(article)@.revisions,
        final(article)@.ordered_revisions == old(article)@.ordered_revisions,
        arenas_grow(old(article)@, final(article)@),
        same_rest(old(article)@, final(article)@),
{
    let ghost a = article@;
    proof {
        lemma_grow_refl(a);
    }
    let mut k: usize = 0;
    while k < sids.len()
        invariant
            k <= sids@.len(),
            ids_below(sids@, a.sentences.len() as int),
            article@.arenas_ok(),
            article@.sentences.len() == a.sentences.len(),
            article@.paragraphs == a.paragraphs,
            article@.tokens == a.tokens,
            article@.revisions == a.revisions,
            article@.ordered_revisions == a.ordered_revisions,
            sentences_filed(article@, sids@, k as int) == sentences_filed(a, sids@, 0),
            arenas_grow(a, article@),
            same_rest(a, article@),
        decreases sids@.len() - k,
    {
        let ghost b = article@;
        let id = sids[k];
        let hash = article.sentence(id).hash_value.clone();
        article.sentences_ht.push(&hash, id);
        let s = article.sentence_mut(id);
        s.value = String::new();
        proof {
            let q = b.sentences[id as int];
            let goal = ArticleView {
                sentences_ht: with_id(b.sentences_ht, q.hash_value, id),
                ..b.set_sentence(id as int, SentenceView { value: Seq::empty(), ..q })
            };
            assert(article@.sentences =~= goal.sentences);
            assert(article@ =~= goal);
            lemma_filed_below(b.sentences_ht, q.hash_value, id, b.sentences.len() as int);
            assert forall|i: int| 0 <= i < article@.sentences.len() implies ids_below(
                (#[trigger] article@.sentences[i]).words,
                article@.tokens.len() as int,
            ) by {
                assert(ids_below(b.sentences[i].words, b.tokens.len() as int));
            }
            lemma_grow_refl(b);
            assert(sentences_grow(b.sentences, article@.sentences)) by {
                lemma_prefix_self(q.words);
            }
            lemma_grow_trans(a, b, article@);
        }
        k = k + 1;
    }
}

impl Article {
    /// The revision that a new one is compared with.
    fn revision_before(&self) -> (r: Revision)
        ensures
            r@ == last_good(self@),
    {
        match self.revisions.get(&self.last_good_rev_id) {
            Some(r) => r.clone(),
            None => Revision::default(),
        }
    }

    /// Takes the revision for vandalism and remembers its content hash.
    fn note_spam(&mut self, rev_id: RevId, hash: String)
        ensures
            final(self)@ == (ArticleView {
                spam_ids: old(self)@.spam_ids.push(rev_id),
                spam_hashes: old(self)@.spam_hashes.insert(hash@),
                ..old(self)@
            }),
    {
        let ghost a = self@;
        self.spam_ids.push(rev_id);
        self.spam_hashes.insert(hash);
        proof {
            assert(self@ =~= ArticleView {
                spam_ids: a.spam_ids.push(rev_id),
                spam_hashes: a.spam_hashes.insert(hash@),
                ..a
            });
        }
    }

    /// Analyses the next revision of the article.
    pub fn analyse_revision(&mut self, input: RevisionInput) -> (outcome: RevisionOutcome)
        requires
            old(self)@.wf(),
        ensures
            (final(self)@, outcome) == analysed(old(self)@, input@),
            final(self)@.wf(),
            arenas_grow(old(self)@, final(self)@),
            outcome is Vandalism ==> history_kept(old(self)@, final(self)@, input@),
            outcome is Stored ==> history_extended(old(self)@, final(self)@, input@),
    {
        let ghost a = self@;
        let ghost i = input@;
        proof {
            lemma_grow_refl(a);
        }
        let rev_id = input.rev_id;
        let rev_hash: String = match &input.sha1 {
            Some(h) => h.clone(),
            None => hash_md5(input.text.as_str()),
        };
        proof {
            assert(rev_hash@ == content_hash(i));
        }
        if hash_matches_known_spam(rev_hash.as_str(), &self.spam_hashes) {
            self.spam_ids.push(rev_id);
            proof {
                assert(a.spam_hashes.insert(rev_hash@) =~= a.spam_hashes);
                assert(self@ =~= ArticleView { spam_ids: a.spam_ids.push(rev_id), ..a });
            }
            return RevisionOutcome::Vandalism(VandalismReason::HashMatch);
        }
        let revision_prev = self.revision_before();
        let text_len: usize = chars_of(input.text.as_str()).len();
        let comment_present = match &input.comment {
            Some(c) => !c.as_str().is_empty(),
            None => false,
        };
        proof {
            assert(comment_present == has_comment(i));
            assert(self@.holds_revision(revision_prev@));
        }
        if length_shrink_is_vandalism(
            revision_prev.length,
            text_len,
            comment_present,
            input.minor,
        ) {
            self.note_spam(rev_id, rev_hash);
            return RevisionOutcome::Vandalism(VandalismReason::LengthShrink);
        }
        let editor = match &input.user_name {
            Some(n) => derive_editor(input.user_id, Some(n.as_str())),
            None => derive_editor(input.user_id, None),
        };
        let mut revision_curr = Revision::default();
        revision_curr.id = rev_id;
        revision_curr.editor = editor;
        revision_curr.timestamp = input.timestamp;
        revision_curr.length = text_len;
        proof {
            assert(revision_curr@ =~= blank_revision(i));
        }
        let lowered = to_lowercase(input.text.as_str());
        let out = determine_authorship(self, lowered.as_str(), &revision_prev, &mut revision_curr);
        let ghost b = self@;
        proof {
            assert forall|id: u64| #[trigger] b.revisions.contains_key(id) implies b.holds_revision(
                b.revisions[id],
            ) by {
                assert(a.holds_revision(a.revisions[id]));
                lemma_entries_grow(
                    a.revisions[id].paragraphs,
                    a.paragraphs.len() as int,
                    b.paragraphs.len() as int,
                );
            }
        }
        if out.vandalism {
            self.note_spam(rev_id, rev_hash);
            return RevisionOutcome::Vandalism(VandalismReason::TokenDensity);
        }
        let total: usize = self.tokens.len();
        proof {
            assert(b.tokens.len() == total);
            lemma_recorded_ok(b, out@, revision_prev.id, rev_id);
            lemma_recorded_grows(b, out@, revision_prev.id, rev_id);
        }
        record_inbound_outbound(self, &out, revision_prev.id, rev_id);
        let ghost c = self@;
        file_paragraphs(self, &out.unmatched_paragraphs_curr);
        let ghost d = self@;
        file_sentences(self, &out.unmatched_sentences_curr);
        let ghost e = self@;
        self.last_good_rev_id = rev_id;
        self.ordered_revisions.push(rev_id);
        let ghost revs = self.revisions@;
        self.revisions.insert(rev_id, revision_curr);
        proof {
            assert(revision_views(self.revisions@) =~= revision_views(revs).insert(
                rev_id,
                revision_curr@,
            ));
            assert(self@ =~= revision_stored(e, rev_id, revision_curr@));
            lemma_grow_trans(a, b, c);
            lemma_grow_trans(a, c, d);
            lemma_grow_trans(a, d, e);
            assert forall|id: u64| #[trigger]
                self@.revisions.contains_key(id) implies self@.holds_revision(
                self@.revisions[id],
            ) by {
                if id != rev_id {
                    assert(b.revisions.contains_key(id));
                }
            }
            assert forall|k: int| 0 <= k < self@.ordered_revisions.len() implies self@.revisions.contains_key(
                #[trigger] self@.ordered_revisions[k],
            ) by {
                if k < e.ordered_revisions.len() {
                    assert(a.revisions.contains_key(a.ordered_revisions[k]));
                }
            }
        }
        RevisionOutcome::Stored
    }
}

proof fn lemma_entries_grow(e: Entries, n: int, m: int)
    requires
        entries_below(e, n),
        n <= m,
    ensures
        entries_below(e, m),
{
    assert forall|i: int| 0 <= i < e.len() implies ids_below((#[trigger] e[i]).1, m) by {
        assert forall|j: int| 0 <= j < e[i].1.len() implies (#[trigger] e[i].1[j]) < m by {
            assert(ids_below(e[i].1, n));
        }
    }
}

/// What was vandalism once is known again by its content, whatever else the later
/// revision says, and neither is part of the history.
pub proof fn vandalism_is_known_again(a: ArticleView, i: InputView, j: InputView)
    requires
        analysed(a, i).1 is Vandalism,
        content_hash(j) == content_hash(i),
    ensures
        ({
            let e = analysed(a, i).0;
            let (f, outcome) = analysed(e, j);
            &&& outcome == RevisionOutcome::Vandalism(VandalismReason::HashMatch)
            &&& e.spam_ids == a.spam_ids.push(i.rev_id)
            &&& f.spam_ids == e.spam_ids.push(j.rev_id)
            &&& f.revisions == a.revisions
            &&& f.ordered_revisions == a.ordered_revisions
            &&& f.last_good_rev_id == a.last_good_rev_id
            &&& f.tokens == a.tokens
        }),
{
    let prev = last_good(a);
    if !(a.spam_hashes.contains(content_hash(i)) || is_shrink(
        prev.length as int,
        i.text.len() as int,
        has_comment(i),
        i.minor,
    )) {
        lemma_cascade_tables(a, lowercase(i.text), prev, blank_revision(i));
    }
}

/// Emptying a page of more than 1000 characters is vandalism, unless the edit is minor
/// and has a summary. What matters is the last revision that is part of the history.
pub proof fn blanking_is_kept_out(a: ArticleView, i: InputView)
    requires
        a.revisions.contains_key(a.last_good_rev_id),
        a.revisions[a.last_good_rev_id].length > 1000,
        i.text.len() == 0,
        !i.minor || i.comment is None || i.comment->0.len() == 0,
    ensures
        analysed(a, i).1 is Vandalism,
        analysed(a, i).0.revisions == a.revisions,
        analysed(a, i).0.tokens == a.tokens,
{
}

/// A revision that is part of the history is the one that the next is compared with, and
/// has its own length, time and editor.
pub proof fn stored_revision_is_last(a: ArticleView, i: InputView)
    requires
        analysed(a, i).1 is Stored,
    ensures
        ({
            let r = last_good(analysed(a, i).0);
            &&& r.id == i.rev_id
            &&& r.length == i.text.len() as usize
            &&& r.timestamp == i.timestamp
            &&& r.editor == editor_of(i.user_id, i.user_name)
            &&& analysed(a, i).0.ordered_revisions == a.ordered_revisions.push(i.rev_id)
        }),
{
    let prev = last_good(a);
    let (b, r, out) = authorship(a, lowercase(i.text), prev, blank_revision(i));
    lemma_cascade_tables(a, lowercase(i.text), prev, blank_revision(i));
    let c = recorded(b, out, prev.id, i.rev_id);
    let d = paragraphs_filed(c, out.unmatched_paragraphs_curr, 0);
    lemma_paragraphs_filed_tables(c, out.unmatched_paragraphs_curr, 0);
    lemma_sentences_filed_tables(d, out.unmatched_sentences_curr, 0);
}

proof fn lemma_paragraphs_filed_tables(c: ArticleView, pids: Seq<usize>, k: int)
    ensures
        paragraphs_filed(c, pids, k).ordered_revisions == c.ordered_revisions,
        paragraphs_filed(c, pids, k).revisions == c.revisions,
    decreases pids.len() - k,
{
    if 0 <= k < pids.len() {
        let p = c.paragraphs[pids[k] as int];
        let x = ArticleView {
            paragraphs_ht: with_id(c.paragraphs_ht, p.hash_value, pids[k]),
            ..c.set_paragraph(pids[k] as int, ParagraphView { value: Seq::empty(), ..p })
        };
        lemma_paragraphs_filed_tables(x, pids, k + 1);
    }
}

proof fn lemma_sentences_filed_tables(c: ArticleView, sids: Seq<usize>, k: int)
    ensures
        sentences_filed(c, sids, k).ordered_revisions == c.ordered_revisions,
        sentences_filed(c, sids, k).revisions == c.revisions,
    decreases sids.len() - k,
{
    if 0 <= k < sids.len() {
        let s = c.sentences[sids[k] as int];
        let x = ArticleView {
            sentences_ht: with_id(c.sentences_ht, s.hash_value, sids[k]),
            ..c.set_sentence(sids[k] as int, SentenceView { value: Seq::empty(), ..s })
        };
        lemma_sentences_filed_tables(x, sids, k + 1);
    }
}

/// Editors are told apart: two registered ones by their ids, two anonymous ones by their
/// names, and a registered one is never taken for an anonymous one.
pub proof fn editors_are_told_apart(x: u64, y: u64, name: Seq<char>, other: Seq<char>)
    requires
        x != 0,
        y != 0,
    ensures
        editor_of(Some(x), Some(name)) == editor_of(Some(y), Some(other)) <==> x == y,
        editor_of(Some(0u64), Some(name)) == editor_of(Some(0u64), Some(other)) <==> name == other,
        editor_of(Some(x), Some(name)) != editor_of(Some(0u64), Some(other)),
{
    reading_undoes_writing(x as nat);
    reading_undoes_writing(y as nat);
    reveal_strlit("0|");
    let p = "0|"@;
    assert(p.len() == 2 && p[0] == '0' && p[1] == '|');
    if p + name == p + other {
        assert((p + name).skip(2) =~= name);
        assert((p + other).skip(2) =~= other);
    }
    if decimal(x as nat) == p + other {
        assert((p + other)[1] == '|');
        assert(is_digit(decimal(x as nat)[1]));
    }
}

} // verus!
