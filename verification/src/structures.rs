//! What the attribution of a page carries across its revisions.
//!
//! Tokens, sentences and paragraphs live in arenas of the [`Article`] and are
//! named by their index there. Nothing is ever removed from an arena.
use crate::buckets::{all_ids, bucket, push_ids, BucketMap, Entries};
use crate::matcher::count_of;
use crate::text::texts;
use vstd::hash_map::StringHashMap;
use std::collections::{HashMap, HashSet};
use vstd::hash_set::StringHashSet;
use vstd::prelude::*;

verus! {

broadcast use vstd::std_specs::hash::group_hash_axioms;

/// Index of a token in the article's list of tokens.
pub type TokenId = usize;

/// Index of a sentence.
pub type SentenceId = usize;

/// Index of a paragraph.
pub type ParagraphId = usize;

/// Id of a page revision.
pub type RevId = u64;

/// Lowercase hexadecimal digest of a text.
pub type Hash = String;

/// A token, from its first occurrence on.
pub struct Word {
    pub token_id: TokenId,
    /// The text, lowercased.
    pub value: String,
    /// The revision that introduced the token.
    pub origin_rev_id: RevId,
    /// The last revision that the token was seen in.
    pub last_rev_id: RevId,
    /// The revisions that brought the token back after a deletion.
    pub inbound: Vec<RevId>,
    /// The revisions that deleted the token.
    pub outbound: Vec<RevId>,
}

/// The model of a token.
#[verifier::ext_equal]
pub struct WordView {
    pub token_id: usize,
    pub value: Seq<char>,
    pub origin_rev_id: u64,
    pub last_rev_id: u64,
    pub inbound: Seq<u64>,
    pub outbound: Seq<u64>,
}

impl View for Word {
    type V = WordView;

    open spec fn view(&self) -> WordView {
        WordView {
            token_id: self.token_id,
            value: self.value@,
            origin_rev_id: self.origin_rev_id,
            last_rev_id: self.last_rev_id,
            inbound: self.inbound@,
            outbound: self.outbound@,
        }
    }
}

/// The model of a token that `rev_id` introduces.
pub open spec fn fresh_word(token_id: usize, value: Seq<char>, rev_id: u64) -> WordView {
    WordView {
        token_id,
        value,
        origin_rev_id: rev_id,
        last_rev_id: rev_id,
        inbound: Seq::empty(),
        outbound: Seq::empty(),
    }
}

impl Word {
    /// A token that the revision `rev_id` introduces.
    pub fn new(token_id: TokenId, value: String, rev_id: RevId) -> (r: Self)
        ensures
            r@ == fresh_word(token_id, value@, rev_id),
    {
        Self {
            token_id,
            value,
            origin_rev_id: rev_id,
            last_rev_id: rev_id,
            inbound: Vec::new(),
            outbound: Vec::new(),
        }
    }
}

/// A sentence, filed by the hash of its tokens joined by spaces.
pub struct Sentence {
    pub hash_value: Hash,
    /// The tokens joined by spaces; empty once the revision that brought the
    /// sentence is stored.
    pub value: String,
    /// The tokens in order.
    pub words: Vec<TokenId>,
}

/// The model of a sentence.
#[verifier::ext_equal]
pub struct SentenceView {
    pub hash_value: Seq<char>,
    pub value: Seq<char>,
    pub words: Seq<usize>,
}

impl View for Sentence {
    type V = SentenceView;

    open spec fn view(&self) -> SentenceView {
        SentenceView { hash_value: self.hash_value@, value: self.value@, words: self.words@ }
    }
}

/// A paragraph, filed by the hash of its text.
pub struct Paragraph {
    pub hash_value: Hash,
    /// The text; empty once the revision that brought the paragraph is stored.
    pub value: String,
    /// The sentences by hash.
    pub sentences: BucketMap,
    /// The hashes of the sentences in order.
    pub ordered_sentences: Vec<Hash>,
}

/// The model of a paragraph.
#[verifier::ext_equal]
pub struct ParagraphView {
    pub hash_value: Seq<char>,
    pub value: Seq<char>,
    pub sentences: Entries,
    pub ordered_sentences: Seq<Seq<char>>,
}

impl View for Paragraph {
    type V = ParagraphView;

    open spec fn view(&self) -> ParagraphView {
        ParagraphView {
            hash_value: self.hash_value@,
            value: self.value@,
            sentences: self.sentences@,
            ordered_sentences: texts(self.ordered_sentences@),
        }
    }
}

/// A revision of the page: which paragraphs it holds.
pub struct Revision {
    pub id: RevId,
    /// The editor: the user id of a registered one, `0|` and the name of an
    /// anonymous one, empty where there is none.
    pub editor: String,
    /// When the revision was made, as `YYYY-MM-DDTHH:MM:SSZ`.
    pub timestamp: String,
    /// The paragraphs by hash.
    pub paragraphs: BucketMap,
    /// The hashes of the paragraphs in order.
    pub ordered_paragraphs: Vec<Hash>,
    /// The length of the text in characters.
    pub length: usize,
    /// How many tokens the revision introduced.
    pub original_adds: usize,
}

/// The model of a revision.
#[verifier::ext_equal]
pub struct RevisionView {
    pub id: u64,
    pub editor: Seq<char>,
    pub timestamp: Seq<char>,
    pub paragraphs: Entries,
    pub ordered_paragraphs: Seq<Seq<char>>,
    pub length: usize,
    pub original_adds: usize,
}

impl View for Revision {
    type V = RevisionView;

    open spec fn view(&self) -> RevisionView {
        RevisionView {
            id: self.id,
            editor: self.editor@,
            timestamp: self.timestamp@,
            paragraphs: self.paragraphs@,
            ordered_paragraphs: texts(self.ordered_paragraphs@),
            length: self.length,
            original_adds: self.original_adds,
        }
    }
}

/// The model of a revision that holds nothing.
pub open spec fn no_revision() -> RevisionView {
    RevisionView {
        id: 0,
        editor: Seq::empty(),
        timestamp: Seq::empty(),
        paragraphs: Seq::empty(),
        ordered_paragraphs: Seq::empty(),
        length: 0,
        original_adds: 0,
    }
}

impl Default for Revision {
    fn default() -> (r: Self)
        ensures
            r@ == no_revision(),
    {
        let r = Revision {
            id: 0,
            editor: String::new(),
            timestamp: String::new(),
            paragraphs: BucketMap::new(),
            ordered_paragraphs: Vec::new(),
            length: 0,
            original_adds: 0,
        };
        proof {
            assert(r@ =~= no_revision());
        }
        r
    }
}

/// A copy of a list of hashes.
pub fn copy_hashes(v: &Vec<Hash>) -> (r: Vec<Hash>)
    ensures
        texts(r@) == texts(v@),
{
    let mut r: Vec<Hash> = Vec::new();
    let mut i: usize = 0;
    while i < v.len()
        invariant
            i <= v@.len(),
            texts(r@) == texts(v@).take(i as int),
        decreases v@.len() - i,
    {
        let ghost r0 = r@;
        r.push(v[i].clone());
        proof {
            assert(texts(r@) =~= texts(r0).push(v@[i as int]@));
            assert(texts(v@).take(i + 1) =~= texts(v@).take(i as int).push(v@[i as int]@));
        }
        i = i + 1;
    }
    proof {
        assert(texts(v@).take(i as int) =~= texts(v@));
    }
    r
}

impl Clone for Revision {
    fn clone(&self) -> (r: Self)
        ensures
            r@ == self@,
    {
        Revision {
            id: self.id,
            editor: self.editor.clone(),
            timestamp: self.timestamp.clone(),
            paragraphs: self.paragraphs.clone(),
            ordered_paragraphs: copy_hashes(&self.ordered_paragraphs),
            length: self.length,
            original_adds: self.original_adds,
        }
    }
}

/// What was matched while one revision is analysed.
pub struct MatchedSets {
    pub paragraphs: HashSet<ParagraphId>,
    pub sentences: HashSet<SentenceId>,
    pub tokens: HashSet<TokenId>,
}

/// The model of what was matched.
#[verifier::ext_equal]
pub struct MatchedView {
    pub paragraphs: Set<usize>,
    pub sentences: Set<usize>,
    pub tokens: Set<usize>,
}

impl View for MatchedSets {
    type V = MatchedView;

    open spec fn view(&self) -> MatchedView {
        MatchedView {
            paragraphs: self.paragraphs@,
            sentences: self.sentences@,
            tokens: self.tokens@,
        }
    }
}

impl MatchedSets {
    /// Nothing matched yet.
    pub fn new() -> (r: Self)
        ensures
            r@ == (MatchedView {
                paragraphs: Set::empty(),
                sentences: Set::empty(),
                tokens: Set::empty(),
            }),
    {
        MatchedSets { paragraphs: HashSet::new(), sentences: HashSet::new(), tokens: HashSet::new() }
    }
}

/// A page with all that is known of its tokens.
pub struct Article {
    pub title: String,
    pub page_id: Option<u64>,
    pub tokens: Vec<Word>,
    pub sentences: Vec<Sentence>,
    pub paragraphs: Vec<Paragraph>,
    pub revisions: HashMap<RevId, Revision>,
    /// The stored revisions in the order of their analysis.
    pub ordered_revisions: Vec<RevId>,
    /// The last revision stored; 0 before the first. Revisions taken for
    /// vandalism do not advance it.
    pub last_good_rev_id: RevId,
    /// Every paragraph ever stored, by hash.
    pub paragraphs_ht: BucketMap,
    /// Every sentence ever stored, by hash.
    pub sentences_ht: BucketMap,
    /// The revisions taken for vandalism, in order.
    pub spam_ids: Vec<RevId>,
    /// The content hashes of revisions taken for vandalism.
    pub spam_hashes: StringHashSet,
    /// The id of the next token.
    pub next_token_id: TokenId,
}

/// The model of an article.
#[verifier::ext_equal]
pub struct ArticleView {
    pub title: Seq<char>,
    pub page_id: Option<u64>,
    pub tokens: Seq<WordView>,
    pub sentences: Seq<SentenceView>,
    pub paragraphs: Seq<ParagraphView>,
    pub revisions: Map<u64, RevisionView>,
    pub ordered_revisions: Seq<u64>,
    pub last_good_rev_id: u64,
    pub paragraphs_ht: Entries,
    pub sentences_ht: Entries,
    pub spam_ids: Seq<u64>,
    pub spam_hashes: Set<Seq<char>>,
    pub next_token_id: usize,
}

/// The models of a list of tokens.
pub open spec fn word_views(v: Seq<Word>) -> Seq<WordView> {
    v.map_values(|w: Word| w@)
}

/// The models of a list of sentences.
pub open spec fn sentence_views(v: Seq<Sentence>) -> Seq<SentenceView> {
    v.map_values(|s: Sentence| s@)
}

/// The models of a list of paragraphs.
pub open spec fn paragraph_views(v: Seq<Paragraph>) -> Seq<ParagraphView> {
    v.map_values(|p: Paragraph| p@)
}

/// The models of the stored revisions.
pub open spec fn revision_views(m: Map<u64, Revision>) -> Map<u64, RevisionView> {
    m.map_values(|r: Revision| r@)
}

impl View for Article {
    type V = ArticleView;

    open spec fn view(&self) -> ArticleView {
        ArticleView {
            title: self.title@,
            page_id: self.page_id,
            tokens: word_views(self.tokens@),
            sentences: sentence_views(self.sentences@),
            paragraphs: paragraph_views(self.paragraphs@),
            revisions: revision_views(self.revisions@),
            ordered_revisions: self.ordered_revisions@,
            last_good_rev_id: self.last_good_rev_id,
            paragraphs_ht: self.paragraphs_ht@,
            sentences_ht: self.sentences_ht@,
            spam_ids: self.spam_ids@,
            spam_hashes: self.spam_hashes@,
            next_token_id: self.next_token_id,
        }
    }
}

/// The model of an article without a revision.
pub open spec fn empty_article(title: Seq<char>) -> ArticleView {
    ArticleView {
        title,
        page_id: None,
        tokens: Seq::empty(),
        sentences: Seq::empty(),
        paragraphs: Seq::empty(),
        revisions: Map::empty(),
        ordered_revisions: Seq::empty(),
        last_good_rev_id: 0,
        paragraphs_ht: Seq::empty(),
        sentences_ht: Seq::empty(),
        spam_ids: Seq::empty(),
        spam_hashes: Set::empty(),
        next_token_id: 0,
    }
}

impl ArticleView {
    /// The article with one more token, which `rev_id` introduces.
    pub open spec fn with_word(self, value: Seq<char>, rev_id: u64) -> ArticleView {
        ArticleView {
            tokens: self.tokens.push(fresh_word(self.next_token_id, value, rev_id)),
            next_token_id: (self.next_token_id + 1) as usize,
            ..self
        }
    }

    /// The article with one more sentence.
    pub open spec fn with_sentence(self, hash: Seq<char>, value: Seq<char>) -> ArticleView {
        ArticleView {
            sentences: self.sentences.push(
                SentenceView { hash_value: hash, value, words: Seq::empty() },
            ),
            ..self
        }
    }

    /// The article with one more paragraph.
    pub open spec fn with_paragraph(self, hash: Seq<char>, value: Seq<char>) -> ArticleView {
        ArticleView {
            paragraphs: self.paragraphs.push(
                ParagraphView {
                    hash_value: hash,
                    value,
                    sentences: Seq::empty(),
                    ordered_sentences: Seq::empty(),
                },
            ),
            ..self
        }
    }

    /// The article with the token `id` replaced.
    pub open spec fn set_word(self, id: int, w: WordView) -> ArticleView {
        ArticleView { tokens: self.tokens.update(id, w), ..self }
    }

    /// The article with the sentence `id` replaced.
    pub open spec fn set_sentence(self, id: int, s: SentenceView) -> ArticleView {
        ArticleView { sentences: self.sentences.update(id, s), ..self }
    }

    /// The article with the paragraph `id` replaced.
    pub open spec fn set_paragraph(self, id: int, p: ParagraphView) -> ArticleView {
        ArticleView { paragraphs: self.paragraphs.update(id, p), ..self }
    }
}

impl Article {
    /// An article without a revision.
    pub fn new(title: &str) -> (r: Self)
        ensures
            r@ == empty_article(title@),
    {
        let r = Article {
            title: title.to_owned(),
            page_id: None,
            tokens: Vec::new(),
            sentences: Vec::new(),
            paragraphs: Vec::new(),
            revisions: HashMap::new(),
            ordered_revisions: Vec::new(),
            last_good_rev_id: 0,
            paragraphs_ht: BucketMap::new(),
            sentences_ht: BucketMap::new(),
            spam_ids: Vec::new(),
            spam_hashes: StringHashSet::new(),
            next_token_id: 0,
        };
        proof {
            assert(r@ =~= empty_article(title@));
        }
        r
    }

    /// Adds a token that `origin_rev` introduces and returns its id.
    pub fn alloc_word(&mut self, value: String, origin_rev: RevId) -> (id: TokenId)
        requires
            old(self).next_token_id == old(self).tokens@.len(),
        ensures
            id == old(self).next_token_id,
            final(self)@ == old(self)@.with_word(value@, origin_rev),
            final(self).next_token_id == final(self).tokens@.len(),
    {
        let id: usize = self.next_token_id;
        let w = Word::new(id, value, origin_rev);
        self.tokens.push(w);
        self.next_token_id = self.tokens.len();
        proof {
            assert(self@.tokens =~= old(self)@.tokens.push(w@));
            assert(self@ =~= old(self)@.with_word(value@, origin_rev));
        }
        id
    }

    /// Adds a sentence and returns its id.
    pub fn alloc_sentence(&mut self, hash: Hash, value: String) -> (id: SentenceId)
        ensures
            id == old(self)@.sentences.len(),
            final(self)@ == old(self)@.with_sentence(hash@, value@),
    {
        let id: usize = self.sentences.len();
        let s = Sentence { hash_value: hash, value, words: Vec::new() };
        self.sentences.push(s);
        proof {
            assert(s@ =~= (SentenceView { hash_value: hash@, value: value@, words: Seq::empty() }));
            assert(self@.sentences =~= old(self)@.sentences.push(s@));
            assert(self@ =~= old(self)@.with_sentence(hash@, value@));
        }
        id
    }

    /// Adds a paragraph and returns its id.
    pub fn alloc_paragraph(&mut self, hash: Hash, value: String) -> (id: ParagraphId)
        ensures
            id == old(self)@.paragraphs.len(),
            final(self)@ == old(self)@.with_paragraph(hash@, value@),
    {
        let id: usize = self.paragraphs.len();
        let p = Paragraph {
            hash_value: hash,
            value,
            sentences: BucketMap::new(),
            ordered_sentences: Vec::new(),
        };
        self.paragraphs.push(p);
        proof {
            assert(p@ =~= (ParagraphView {
                hash_value: hash@,
                value: value@,
                sentences: Seq::empty(),
                ordered_sentences: Seq::empty(),
            }));
            assert(self@.paragraphs =~= old(self)@.paragraphs.push(p@));
            assert(self@ =~= old(self)@.with_paragraph(hash@, value@));
        }
        id
    }

    /// The token `id`.
    pub fn word(&self, id: TokenId) -> (r: &Word)
        requires
            id < self@.tokens.len(),
        ensures
            r@ == self@.tokens[id as int],
    {
        &self.tokens[id]
    }

    /// The token `id`, to be changed.
    pub fn word_mut(&mut self, id: TokenId) -> (r: &mut Word)
        requires
            id < old(self)@.tokens.len(),
        ensures
            r@ == old(self)@.tokens[id as int],
            final(self)@ == old(self)@.set_word(id as int, final(r)@),
    {
        &mut self.tokens[id]
    }

    /// The sentence `id`.
    pub fn sentence(&self, id: SentenceId) -> (r: &Sentence)
        requires
            id < self@.sentences.len(),
        ensures
            r@ == self@.sentences[id as int],
    {
        &self.sentences[id]
    }

    /// The sentence `id`, to be changed.
    pub fn sentence_mut(&mut self, id: SentenceId) -> (r: &mut Sentence)
        requires
            id < old(self)@.sentences.len(),
        ensures
            r@ == old(self)@.sentences[id as int],
            final(self)@ == old(self)@.set_sentence(id as int, final(r)@),
    {
        &mut self.sentences[id]
    }

    /// The paragraph `id`.
    pub fn paragraph(&self, id: ParagraphId) -> (r: &Paragraph)
        requires
            id < self@.paragraphs.len(),
        ensures
            r@ == self@.paragraphs[id as int],
    {
        &self.paragraphs[id]
    }

    /// The paragraph `id`, to be changed.
    pub fn paragraph_mut(&mut self, id: ParagraphId) -> (r: &mut Paragraph)
        requires
            id < old(self)@.paragraphs.len(),
        ensures
            r@ == old(self)@.paragraphs[id as int],
            final(self)@ == old(self)@.set_paragraph(id as int, final(r)@),
    {
        &mut self.paragraphs[id]
    }
}

/// The id that the hash at position `i` of `ordered` stands for: of the ids filed
/// under the hash, the one after those that its earlier occurrences stand for.
pub open spec fn id_at(e: Entries, ordered: Seq<Seq<char>>, i: int) -> Option<usize> {
    let b = bucket(e, ordered[i]);
    let nth = count_of(ordered.take(i), ordered[i]);
    if nth < b.len() {
        Some(b[nth as int])
    } else {
        None
    }
}

/// The ids that the hashes of `ordered`, from position `i` on, stand for.
pub open spec fn ids_from(e: Entries, ordered: Seq<Seq<char>>, i: int) -> Seq<usize>
    decreases ordered.len() - i,
{
    if i < 0 || i >= ordered.len() {
        Seq::empty()
    } else {
        match id_at(e, ordered, i) {
            Some(id) => seq![id] + ids_from(e, ordered, i + 1),
            None => ids_from(e, ordered, i + 1),
        }
    }
}

/// The ids in the order of their hashes.
pub open spec fn ordered_ids(e: Entries, ordered: Seq<Seq<char>>) -> Seq<usize> {
    ids_from(e, ordered, 0)
}

/// The ids in the order of their hashes.
pub fn ids_in_order(map: &BucketMap, ordered: &Vec<Hash>) -> (r: Vec<usize>)
    ensures
        r@ == ordered_ids(map@, texts(ordered@)),
{
    let ghost ov = texts(ordered@);
    let mut counts: StringHashMap<usize> = StringHashMap::new();
    let mut r: Vec<usize> = Vec::new();
    let mut i: usize = 0;
    proof {
        assert(ov.take(0) =~= Seq::empty());
        assert(r@ + ordered_ids(map@, ov) =~= ordered_ids(map@, ov));
    }
    while i < ordered.len()
        invariant
            i <= ordered@.len(),
            ov == texts(ordered@),
            r@ + ids_from(map@, ov, i as int) == ordered_ids(map@, ov),
            forall|h: Seq<char>|
                #![trigger counts@.contains_key(h)]
                (counts@.contains_key(h) ==> counts@[h] == count_of(ov.take(i as int), h)) && (
                !counts@.contains_key(h) ==> count_of(ov.take(i as int), h) == 0),
        decreases ordered@.len() - i,
    {
        let ghost h = ov[i as int];
        let ghost r0 = r@;
        let ghost counts0 = counts@;
        let nth: usize = match counts.get(ordered[i].as_str()) {
            Some(n) => *n,
            None => 0,
        };
        proof {
            assert(counts0.contains_key(h) || !counts0.contains_key(h));
            lemma_count_at_most(ov.take(i as int), h);
        }
        counts.insert(ordered[i].clone(), nth + 1);
        proof {
            assert forall|g: Seq<char>|
                #![trigger counts@.contains_key(g)]
                (counts@.contains_key(g) ==> counts@[g] == count_of(ov.take(i + 1), g)) && (
                !counts@.contains_key(g) ==> count_of(ov.take(i + 1), g) == 0) by {
                assert(ov.take(i + 1).drop_last() =~= ov.take(i as int));
                assert(ov.take(i + 1).last() == h);
                assert(counts0.contains_key(g) || !counts0.contains_key(g));
            }
        }
        match map.get(ordered[i].as_str()) {
            Some(b) => {
                if nth < b.len() {
                    r.push(b[nth]);
                    proof {
                        assert(r@ + ids_from(map@, ov, i + 1) =~= r0 + (seq![b@[nth as int]]
                            + ids_from(map@, ov, i + 1)));
                    }
                }
            },
            None => {},
        }
        i = i + 1;
    }
    proof {
        assert(r@ + Seq::<usize>::empty() =~= r@);
    }
    r
}

proof fn lemma_count_at_most<V>(s: Seq<V>, x: V)
    ensures
        count_of(s, x) <= s.len(),
    decreases s.len(),
{
    if s.len() > 0 {
        lemma_count_at_most(s.drop_last(), x);
    }
}

/// The tokens of the sentences `sids`, one sentence after the other.
pub open spec fn words_of(sentences: Seq<SentenceView>, sids: Seq<usize>) -> Seq<usize>
    decreases sids.len(),
{
    if sids.len() == 0 {
        Seq::empty()
    } else {
        words_of(sentences, sids.drop_last()) + sentences[sids.last() as int].words
    }
}

/// Whether every id is below `n`.
pub open spec fn ids_below(ids: Seq<usize>, n: int) -> bool {
    forall|i: int| 0 <= i < ids.len() ==> (#[trigger] ids[i]) < n
}

/// Whether every id filed is below `n`.
pub open spec fn entries_below(e: Entries, n: int) -> bool {
    forall|i: int| 0 <= i < e.len() ==> ids_below((#[trigger] e[i]).1, n)
}

impl ArticleView {
    /// The arenas fit together: token ids count up from 0, and every id held
    /// anywhere names something in its arena.
    pub open spec fn arenas_ok(self) -> bool {
        &&& self.next_token_id == self.tokens.len()
        &&& forall|i: int| 0 <= i < self.tokens.len() ==> (#[trigger] self.tokens[i]).token_id == i
        &&& forall|i: int|
            0 <= i < self.sentences.len() ==> ids_below(
                (#[trigger] self.sentences[i]).words,
                self.tokens.len() as int,
            )
        &&& forall|i: int|
            0 <= i < self.paragraphs.len() ==> entries_below(
                (#[trigger] self.paragraphs[i]).sentences,
                self.sentences.len() as int,
            )
        &&& entries_below(self.paragraphs_ht, self.paragraphs.len() as int)
        &&& entries_below(self.sentences_ht, self.sentences.len() as int)
    }

    /// Every paragraph of the revision is in the arena.
    pub open spec fn holds_revision(self, r: RevisionView) -> bool {
        entries_below(r.paragraphs, self.paragraphs.len() as int)
    }

    /// The article is what a sequence of analyses leaves: its arenas fit together,
    /// its revisions are made of paragraphs in the arena, and every revision in
    /// order is stored.
    pub open spec fn wf(self) -> bool {
        &&& self.arenas_ok()
        &&& forall|id: u64| #[trigger]
            self.revisions.contains_key(id) ==> self.holds_revision(self.revisions[id])
        &&& forall|i: int|
            0 <= i < self.ordered_revisions.len() ==> self.revisions.contains_key(
                #[trigger] self.ordered_revisions[i],
            )
    }
}

/// The ids filed under any one hash are among all ids.
pub proof fn lemma_bucket_below(e: Entries, k: Seq<char>, n: int)
    requires
        entries_below(e, n),
    ensures
        ids_below(bucket(e, k), n),
{
    crate::buckets::lemma_position(e, k);
}

/// All ids are below `n` where each list of ids is.
pub proof fn lemma_all_ids_below(e: Entries, n: int)
    requires
        entries_below(e, n),
    ensures
        ids_below(all_ids(e), n),
    decreases e.len(),
{
    if e.len() > 0 {
        assert forall|i: int| 0 <= i < e.drop_last().len() implies ids_below(
            (#[trigger] e.drop_last()[i]).1,
            n,
        ) by {
            assert(e.drop_last()[i] == e[i]);
        }
        lemma_all_ids_below(e.drop_last(), n);
        assert(ids_below(e[e.len() - 1].1, n));
    }
}

/// The ids that hashes stand for are below `n` where each list of ids is.
pub proof fn lemma_ordered_below(e: Entries, ordered: Seq<Seq<char>>, i: int, n: int)
    requires
        entries_below(e, n),
    ensures
        ids_below(ids_from(e, ordered, i), n),
    decreases ordered.len() - i,
{
    if 0 <= i < ordered.len() {
        lemma_ordered_below(e, ordered, i + 1, n);
        lemma_bucket_below(e, ordered[i], n);
    }
}

/// The tokens of sentences in the arena are in the arena.
pub proof fn lemma_words_below(sentences: Seq<SentenceView>, sids: Seq<usize>, n: int)
    requires
        ids_below(sids, sentences.len() as int),
        forall|i: int| 0 <= i < sentences.len() ==> ids_below((#[trigger] sentences[i]).words, n),
    ensures
        ids_below(words_of(sentences, sids), n),
    decreases sids.len(),
{
    if sids.len() > 0 {
        assert forall|i: int| 0 <= i < sids.drop_last().len() implies (#[trigger] sids.drop_last()[i])
            < sentences.len() by {
            assert(sids.drop_last()[i] == sids[i]);
        }
        lemma_words_below(sentences, sids.drop_last(), n);
        assert(sids[sids.len() - 1] < sentences.len());
        assert(ids_below(sentences[sids.last() as int].words, n));
    }
}

impl Article {
    /// The tokens of the sentences `sids`.
    pub fn words_in(&self, sids: &Vec<SentenceId>) -> (r: Vec<TokenId>)
        requires
            ids_below(sids@, self@.sentences.len() as int),
        ensures
            r@ == words_of(self@.sentences, sids@),
    {
        let mut r: Vec<usize> = Vec::new();
        let mut i: usize = 0;
        while i < sids.len()
            invariant
                i <= sids@.len(),
                ids_below(sids@, self@.sentences.len() as int),
                r@ == words_of(self@.sentences, sids@.take(i as int)),
            decreases sids@.len() - i,
        {
            push_ids(&mut r, &self.sentences[sids[i]].words);
            proof {
                assert(sids@.take(i + 1).drop_last() =~= sids@.take(i as int));
                assert(sids@.take(i + 1).last() == sids@[i as int]);
            }
            i = i + 1;
        }
        proof {
            assert(sids@.take(i as int) =~= sids@);
        }
        r
    }
}

/// The tokens of a revision in the order of the text.
pub open spec fn revision_tokens(a: ArticleView, r: RevisionView) -> Seq<usize> {
    tokens_of_paragraphs(a, ordered_ids(r.paragraphs, r.ordered_paragraphs))
}

/// The tokens of the paragraphs `pids` in the order of the text.
pub open spec fn tokens_of_paragraphs(a: ArticleView, pids: Seq<usize>) -> Seq<usize>
    decreases pids.len(),
{
    if pids.len() == 0 {
        Seq::empty()
    } else {
        let p = a.paragraphs[pids.last() as int];
        tokens_of_paragraphs(a, pids.drop_last()) + words_of(
            a.sentences,
            ordered_ids(p.sentences, p.ordered_sentences),
        )
    }
}

/// The tokens of a revision in the order of the text.
pub fn iter_rev_tokens(article: &Article, revision: &Revision) -> (r: Vec<TokenId>)
    requires
        article@.arenas_ok(),
        article@.holds_revision(revision@),
    ensures
        r@ == revision_tokens(article@, revision@),
        ids_below(r@, article@.tokens.len() as int),
{
    let ghost a = article@;
    let pids = ids_in_order(&revision.paragraphs, &revision.ordered_paragraphs);
    proof {
        lemma_ordered_below(
            revision@.paragraphs,
            revision@.ordered_paragraphs,
            0,
            a.paragraphs.len() as int,
        );
    }
    let mut r: Vec<usize> = Vec::new();
    let mut i: usize = 0;
    while i < pids.len()
        invariant
            i <= pids@.len(),
            a == article@,
            a.arenas_ok(),
            ids_below(pids@, a.paragraphs.len() as int),
            r@ == tokens_of_paragraphs(a, pids@.take(i as int)),
            ids_below(r@, a.tokens.len() as int),
        decreases pids@.len() - i,
    {
        let p = article.paragraph(pids[i]);
        let sids = ids_in_order(&p.sentences, &p.ordered_sentences);
        proof {
            assert(a.paragraphs[pids@[i as int] as int] == p@);
            lemma_ordered_below(
                p@.sentences,
                p@.ordered_sentences,
                0,
                a.sentences.len() as int,
            );
            lemma_words_below(a.sentences, sids@, a.tokens.len() as int);
        }
        let ws = article.words_in(&sids);
        push_ids(&mut r, &ws);
        proof {
            assert(pids@.take(i + 1).drop_last() =~= pids@.take(i as int));
            assert(pids@.take(i + 1).last() == pids@[i as int]);
        }
        i = i + 1;
    }
    proof {
        assert(pids@.take(i as int) =~= pids@);
    }
    r
}

/// Whether `w` is `v` later on: the id, the text and the origin are the same, and
/// the lists of revisions only grew.
pub open spec fn same_word(v: WordView, w: WordView) -> bool {
    &&& v.token_id == w.token_id
    &&& v.value == w.value
    &&& v.origin_rev_id == w.origin_rev_id
    &&& v.inbound.is_prefix_of(w.inbound)
    &&& v.outbound.is_prefix_of(w.outbound)
}

/// Whether the tokens `u` are the tokens `t` later on.
pub open spec fn tokens_grow(t: Seq<WordView>, u: Seq<WordView>) -> bool {
    &&& t.len() <= u.len()
    &&& forall|i: int| 0 <= i < t.len() ==> same_word(t[i], #[trigger] u[i])
}

/// Whether the tokens that `u` has beyond `t` were introduced by the revision `rev`.
pub open spec fn tokens_added(t: Seq<WordView>, u: Seq<WordView>, rev: u64) -> bool {
    &&& t.len() <= u.len()
    &&& forall|i: int| t.len() <= i < u.len() ==> (#[trigger] u[i]).origin_rev_id == rev
}

/// Whether the sentences `u` are the sentences `t` later on: tokens are only
/// added to them.
pub open spec fn sentences_grow(t: Seq<SentenceView>, u: Seq<SentenceView>) -> bool {
    &&& t.len() <= u.len()
    &&& forall|i: int|
        0 <= i < t.len() ==> t[i].hash_value == (#[trigger] u[i]).hash_value
            && t[i].words.is_prefix_of(u[i].words)
}

/// Whether the paragraphs `u` are the paragraphs `t` later on: sentences are only
/// added to them.
pub open spec fn paragraphs_grow(t: Seq<ParagraphView>, u: Seq<ParagraphView>) -> bool {
    &&& t.len() <= u.len()
    &&& forall|i: int|
        0 <= i < t.len() ==> t[i].hash_value == (#[trigger] u[i]).hash_value
            && t[i].ordered_sentences.is_prefix_of(u[i].ordered_sentences)
}

/// Whether the arenas of `b` are those of `a` later on.
pub open spec fn arenas_grow(a: ArticleView, b: ArticleView) -> bool {
    &&& tokens_grow(a.tokens, b.tokens)
    &&& sentences_grow(a.sentences, b.sentences)
    &&& paragraphs_grow(a.paragraphs, b.paragraphs)
}

/// Whether `a` and `b` agree on all but their arenas.
pub open spec fn same_tables(a: ArticleView, b: ArticleView) -> bool {
    &&& a.title == b.title
    &&& a.page_id == b.page_id
    &&& a.revisions == b.revisions
    &&& a.ordered_revisions == b.ordered_revisions
    &&& a.last_good_rev_id == b.last_good_rev_id
    &&& a.paragraphs_ht == b.paragraphs_ht
    &&& a.sentences_ht == b.sentences_ht
    &&& a.spam_ids == b.spam_ids
    &&& a.spam_hashes == b.spam_hashes
}

proof fn lemma_prefix_trans<T>(x: Seq<T>, y: Seq<T>, z: Seq<T>)
    requires
        x.is_prefix_of(y),
        y.is_prefix_of(z),
    ensures
        x.is_prefix_of(z),
{
    assert(x =~= z.subrange(0, x.len() as int)) by {
        assert forall|i: int| 0 <= i < x.len() implies x[i] == z[i] by {
            assert(x[i] == y.subrange(0, x.len() as int)[i]);
            assert(y[i] == z.subrange(0, y.len() as int)[i]);
        }
    }
}

/// Later on twice is later on.
pub proof fn lemma_grow_trans(a: ArticleView, b: ArticleView, c: ArticleView)
    requires
        arenas_grow(a, b),
        arenas_grow(b, c),
    ensures
        arenas_grow(a, c),
{
    assert forall|i: int| 0 <= i < a.tokens.len() implies same_word(
        a.tokens[i],
        #[trigger] c.tokens[i],
    ) by {
        assert(same_word(a.tokens[i], b.tokens[i]));
        assert(same_word(b.tokens[i], c.tokens[i]));
        lemma_prefix_trans(a.tokens[i].inbound, b.tokens[i].inbound, c.tokens[i].inbound);
        lemma_prefix_trans(a.tokens[i].outbound, b.tokens[i].outbound, c.tokens[i].outbound);
    }
    assert forall|i: int| 0 <= i < a.sentences.len() implies a.sentences[i].hash_value == (
    #[trigger] c.sentences[i]).hash_value && a.sentences[i].words.is_prefix_of(
        c.sentences[i].words,
    ) by {
        assert(a.sentences[i].hash_value == b.sentences[i].hash_value);
        assert(b.sentences[i].hash_value == c.sentences[i].hash_value);
        lemma_prefix_trans(a.sentences[i].words, b.sentences[i].words, c.sentences[i].words);
    }
    assert forall|i: int| 0 <= i < a.paragraphs.len() implies a.paragraphs[i].hash_value == (
    #[trigger] c.paragraphs[i]).hash_value && a.paragraphs[i].ordered_sentences.is_prefix_of(
        c.paragraphs[i].ordered_sentences,
    ) by {
        assert(a.paragraphs[i].hash_value == b.paragraphs[i].hash_value);
        assert(b.paragraphs[i].hash_value == c.paragraphs[i].hash_value);
        lemma_prefix_trans(
            a.paragraphs[i].ordered_sentences,
            b.paragraphs[i].ordered_sentences,
            c.paragraphs[i].ordered_sentences,
        );
    }
}

/// An article is itself later on.
pub proof fn lemma_grow_refl(a: ArticleView)
    ensures
        arenas_grow(a, a),
        same_tables(a, a),
{
    assert forall|i: int| 0 <= i < a.tokens.len() implies same_word(
        a.tokens[i],
        #[trigger] a.tokens[i],
    ) by {
        lemma_prefix_self(a.tokens[i].inbound);
        lemma_prefix_self(a.tokens[i].outbound);
    }
    assert forall|i: int| 0 <= i < a.sentences.len() implies (
    #[trigger] a.sentences[i]).words.is_prefix_of(a.sentences[i].words) by {
        lemma_prefix_self(a.sentences[i].words);
    }
    assert forall|i: int| 0 <= i < a.paragraphs.len() implies (
    #[trigger] a.paragraphs[i]).ordered_sentences.is_prefix_of(a.paragraphs[i].ordered_sentences) by {
        lemma_prefix_self(a.paragraphs[i].ordered_sentences);
    }
}

/// A list begins with itself.
pub proof fn lemma_prefix_self<T>(x: Seq<T>)
    ensures
        x.is_prefix_of(x),
{
    assert(x =~= x.subrange(0, x.len() as int));
}

/// A list with one more element begins with the list.
pub proof fn lemma_prefix_push<T>(x: Seq<T>, v: T)
    ensures
        x.is_prefix_of(x.push(v)),
{
    assert(x =~= x.push(v).subrange(0, x.len() as int));
}

} // verus!
