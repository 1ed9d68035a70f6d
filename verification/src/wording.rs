//! Which words of a text are written anew: those that the transcript inserts, and no
//! others.
use crate::cascade::{
    find_prev, lemma_find_prev, not_in, scan_steps, sentence_words, step_text, word_level,
    word_step, word_steps, word_values, words_only, WordContext, WordState,
};
use crate::differ::{transcript, transcript_reconstructs};
use crate::matcher::count_of;
use crate::structures::{words_of, ArticleView, WordView};
use crate::transcript::{curr_of, prev_of, Step};
use vstd::prelude::*;

verus! {

/// How many of the numbers below `n` are such.
spec fn tally(n: int, such: spec_fn(int) -> bool) -> int
    decreases n,
{
    if n <= 0 {
        0
    } else {
        tally(n - 1, such) + if such(n - 1) {
            1int
        } else {
            0
        }
    }
}

proof fn lemma_tally_same(n: int, such: spec_fn(int) -> bool, other: spec_fn(int) -> bool)
    requires
        forall|i: int| 0 <= i < n ==> #[trigger] such(i) == other(i),
    ensures
        tally(n, such) == tally(n, other),
    decreases n,
{
    if n > 0 {
        lemma_tally_same(n - 1, such, other);
        assert(such(n - 1) == other(n - 1));
    }
}

proof fn lemma_tally_less(n: int, such: spec_fn(int) -> bool, other: spec_fn(int) -> bool, p: int)
    requires
        0 <= p < n,
        such(p),
        !other(p),
        forall|i: int| 0 <= i < n && i != p ==> #[trigger] such(i) == other(i),
    ensures
        tally(n, such) == tally(n, other) + 1,
    decreases n,
{
    if p == n - 1 {
        lemma_tally_same(n - 1, such, other);
    } else {
        lemma_tally_less(n - 1, such, other, p);
        assert(such(n - 1) == other(n - 1));
    }
}

proof fn lemma_tally_found(n: int, such: spec_fn(int) -> bool)
    ensures
        tally(n, such) >= 0,
        tally(n, such) > 0 ==> exists|i: int| 0 <= i < n && #[trigger] such(i),
        tally(n, such) == 0 ==> forall|i: int| 0 <= i < n ==> !#[trigger] such(i),
    decreases n,
{
    if n > 0 {
        lemma_tally_found(n - 1, such);
        if tally(n, such) > 0 && !such(n - 1) {
            let i = choose|i: int| 0 <= i < n - 1 && #[trigger] such(i);
            assert(such(i));
        }
        if such(n - 1) {
            assert(such(n - 1));
        }
    }
}

/// Steps with the text `w` that take something from the text before and are not used.
spec fn takes(c: WordContext, used: Seq<bool>, w: Seq<char>) -> spec_fn(int) -> bool {
    |i: int| !used[i] && step_text(c.ops[i]) == w && !(c.ops[i] is Insert)
}

/// Steps with the text `w` that give something to the text now and are not used.
spec fn gives(c: WordContext, used: Seq<bool>, w: Seq<char>) -> spec_fn(int) -> bool {
    |i: int| !used[i] && step_text(c.ops[i]) == w && !(c.ops[i] is Delete)
}

/// Steps that insert something and are used.
spec fn inserts_used(c: WordContext, used: Seq<bool>) -> spec_fn(int) -> bool {
    |i: int| used[i] && c.ops[i] is Insert
}

/// Earlier tokens with the text `w` that are free.
spec fn frees(c: WordContext, tokens: Set<usize>, w: Seq<char>) -> spec_fn(int) -> bool {
    |i: int| c.prev_texts[i] == w && !tokens.contains(c.prev_ids[i])
}

/// As many tokens are free as steps take something, for every text.
spec fn is_even(s: WordState, c: WordContext) -> bool {
    &&& s.used.len() == c.ops.len()
    &&& c.prev_ids.len() == c.prev_texts.len()
    &&& forall|w: Seq<char>|
        tally(c.ops.len() as int, #[trigger] takes(c, s.used, w)) == tally(
            c.prev_ids.len() as int,
            frees(c, s.tokens, w),
        )
}

spec fn has_distinct_ids(c: WordContext) -> bool {
    forall|i: int, k: int| 0 <= i < k < c.prev_ids.len() ==> c.prev_ids[i] != c.prev_ids[k]
}

/// A step that takes something takes one free token with its text.
proof fn lemma_take(s: WordState, c: WordContext, word: Seq<char>, pos: int) -> (i: int)
    requires
        is_even(s, c),
        has_distinct_ids(c),
        0 <= pos < c.ops.len(),
        !s.used[pos],
        step_text(c.ops[pos]) == word,
        !(c.ops[pos] is Insert),
    ensures
        find_prev(c.prev_ids, c.prev_texts, s.tokens, word, 0) == Some(i),
        0 <= i < c.prev_ids.len(),
        forall|t: WordState|
            t.used == s.used.update(pos, true) && t.tokens == s.tokens.insert(c.prev_ids[i])
                ==> #[trigger] is_even(t, c),
{
    let n = c.ops.len() as int;
    let m = c.prev_ids.len() as int;
    lemma_tally_found(n, takes(c, s.used, word));
    assert(takes(c, s.used, word)(pos));
    assert(tally(n, takes(c, s.used, word)) > 0) by {
        if tally(n, takes(c, s.used, word)) == 0 {
            assert(!takes(c, s.used, word)(pos));
        }
    }
    lemma_tally_found(m, frees(c, s.tokens, word));
    let k = choose|k: int| 0 <= k < m && #[trigger] frees(c, s.tokens, word)(k);
    lemma_found(c, s.tokens, word, 0, k);
    lemma_find_prev(c.prev_ids, c.prev_texts, s.tokens, word, 0);
    let i = find_prev(c.prev_ids, c.prev_texts, s.tokens, word, 0)->0;
    let id = c.prev_ids[i];
    assert forall|t: WordState|
        t.used == s.used.update(pos, true) && t.tokens == s.tokens.insert(id) implies
        #[trigger] is_even(t, c) by {
        assert forall|w: Seq<char>|
            tally(n, #[trigger] takes(c, t.used, w)) == tally(m, frees(c, t.tokens, w)) by {
            assert(tally(n, takes(c, s.used, w)) == tally(m, frees(c, s.tokens, w)));
            if w == word {
                assert(frees(c, s.tokens, w)(i));
                assert(!frees(c, t.tokens, w)(i));
                assert forall|q: int| 0 <= q < m && q != i implies #[trigger] frees(
                    c,
                    s.tokens,
                    w,
                )(q) == frees(c, t.tokens, w)(q) by {
                    assert(c.prev_ids[q] != id);
                }
                lemma_tally_less(m, frees(c, s.tokens, w), frees(c, t.tokens, w), i);
                assert(!takes(c, t.used, w)(pos));
                lemma_tally_less(n, takes(c, s.used, w), takes(c, t.used, w), pos);
            } else {
                assert forall|q: int| 0 <= q < m implies #[trigger] frees(c, s.tokens, w)(q)
                    == frees(c, t.tokens, w)(q) by {
                    if q != i {
                        assert(c.prev_ids[q] != id);
                    }
                }
                lemma_tally_same(m, frees(c, s.tokens, w), frees(c, t.tokens, w));
                lemma_tally_same(n, takes(c, s.used, w), takes(c, t.used, w));
            }
        }
    }
    i
}

/// A free token with the text is found.
proof fn lemma_found(c: WordContext, tokens: Set<usize>, word: Seq<char>, from: int, k: int)
    requires
        0 <= from <= k < c.prev_ids.len(),
        frees(c, tokens, word)(k),
    ensures
        find_prev(c.prev_ids, c.prev_texts, tokens, word, from) is Some,
    decreases k - from,
{
    if from < k && !(!tokens.contains(c.prev_ids[from]) && c.prev_texts[from] == word) {
        lemma_found(c, tokens, word, from + 1, k);
    }
}

/// What one word leaves: it used one step that gives it, and added a token just where
/// that step inserts.
spec fn is_served(s: WordState, c: WordContext, word: Seq<char>, t: WordState) -> bool {
    let n = c.ops.len() as int;
    &&& is_even(t, c)
    &&& forall|w: Seq<char>|
        tally(n, #[trigger] gives(c, t.used, w)) == tally(n, gives(c, s.used, w)) - if w == word {
            1int
        } else {
            0
        }
    &&& t.adds - s.adds == tally(n, inserts_used(c, t.used)) - tally(n, inserts_used(c, s.used))
}

proof fn lemma_scan_serves(s: WordState, c: WordContext, sid: usize, word: Seq<char>, pos: int)
    requires
        is_even(s, c),
        has_distinct_ids(c),
        0 <= pos,
        forall|q: int| 0 <= q < pos && q < c.ops.len() ==> s.used[q] || step_text(
            #[trigger] c.ops[q],
        ) != word,
        tally(c.ops.len() as int, gives(c, s.used, word)) > 0,
    ensures
        scan_steps(s, c, sid, word, pos).1,
        is_served(s, c, word, scan_steps(s, c, sid, word, pos).0),
    decreases c.ops.len() - pos,
{
    let n = c.ops.len() as int;
    lemma_tally_found(n, gives(c, s.used, word));
    let g = choose|g: int| 0 <= g < n && #[trigger] gives(c, s.used, word)(g);
    assert(!s.used[g] && step_text(c.ops[g]) == word);
    assert(pos <= g);
    if s.used[pos] || step_text(c.ops[pos]) != word {
        lemma_scan_serves(s, c, sid, word, pos + 1);
    } else {
        let used = s.used.update(pos, true);
        let t = scan_steps(s, c, sid, word, pos).0;
        match c.ops[pos] {
            Step::Keep(v) => {
                let i = lemma_take(s, c, word, pos);
                assert(t.used == used);
                assert(t.tokens == s.tokens.insert(c.prev_ids[i]));
                lemma_used_up(s, c, word, t, pos);
            },
            Step::Delete(v) => {
                let i = lemma_take(s, c, word, pos);
                let id = c.prev_ids[i];
                let m = WordState {
                    article: s.article.set_word(
                        id as int,
                        WordView {
                            outbound: s.article.tokens[id as int].outbound.push(c.rev),
                            ..s.article.tokens[id as int]
                        },
                    ),
                    tokens: s.tokens.insert(id),
                    words: s.words.push(id),
                    used,
                    ..s
                };
                assert(is_even(m, c));
                assert forall|w: Seq<char>|
                    tally(n, #[trigger] gives(c, m.used, w)) == tally(n, gives(c, s.used, w)) by {
                    lemma_tally_same(n, gives(c, m.used, w), gives(c, s.used, w));
                }
                lemma_tally_same(n, inserts_used(c, m.used), inserts_used(c, s.used));
                assert(tally(n, gives(c, m.used, word)) > 0);
                lemma_scan_serves(m, c, sid, word, pos + 1);
                assert(t == scan_steps(m, c, sid, word, pos + 1).0);
                assert forall|w: Seq<char>|
                    tally(n, #[trigger] gives(c, t.used, w)) == tally(n, gives(c, s.used, w)) - (
                    if w == word {
                        1int
                    } else {
                        0
                    }) by {
                    assert(tally(n, gives(c, m.used, w)) == tally(n, gives(c, s.used, w)));
                }
            },
            Step::Insert(v) => {
                assert(t.used == used);
                assert(t.tokens == s.tokens);
                assert forall|w: Seq<char>|
                    tally(n, #[trigger] takes(c, t.used, w)) == tally(
                        c.prev_ids.len() as int,
                        frees(c, t.tokens, w),
                    ) by {
                    assert(tally(n, takes(c, s.used, w)) == tally(
                        c.prev_ids.len() as int,
                        frees(c, s.tokens, w),
                    ));
                    lemma_tally_same(n, takes(c, t.used, w), takes(c, s.used, w));
                }
                lemma_used_up(s, c, word, t, pos);
            },
        }
    }
}

/// A step that gives the word is used up.
proof fn lemma_used_up(s: WordState, c: WordContext, word: Seq<char>, t: WordState, pos: int)
    requires
        s.used.len() == c.ops.len(),
        0 <= pos < c.ops.len(),
        !s.used[pos],
        step_text(c.ops[pos]) == word,
        !(c.ops[pos] is Delete),
        t.used == s.used.update(pos, true),
        t.adds == s.adds + if c.ops[pos] is Insert {
            1int
        } else {
            0
        },
        is_even(t, c),
    ensures
        is_served(s, c, word, t),
{
    let n = c.ops.len() as int;
    assert forall|w: Seq<char>|
        tally(n, #[trigger] gives(c, t.used, w)) == tally(n, gives(c, s.used, w)) - (if w == word {
            1int
        } else {
            0
        }) by {
        if w == word {
            assert(gives(c, s.used, w)(pos));
            assert(!gives(c, t.used, w)(pos));
            lemma_tally_less(n, gives(c, s.used, w), gives(c, t.used, w), pos);
        } else {
            lemma_tally_same(n, gives(c, s.used, w), gives(c, t.used, w));
        }
    }
    if c.ops[pos] is Insert {
        assert(inserts_used(c, t.used)(pos));
        assert(!inserts_used(c, s.used)(pos));
        lemma_tally_less(n, inserts_used(c, t.used), inserts_used(c, s.used), pos);
    } else {
        lemma_tally_same(n, inserts_used(c, t.used), inserts_used(c, s.used));
    }
}

proof fn lemma_words_served(s: WordState, c: WordContext, ws: Seq<(usize, Seq<char>)>, k: int)
    requires
        is_even(s, c),
        has_distinct_ids(c),
        0 <= k <= ws.len(),
        forall|w: Seq<char>|
            tally(c.ops.len() as int, #[trigger] gives(c, s.used, w)) == count_of(
                words_only(ws).skip(k),
                w,
            ),
    ensures
        ({
            let n = c.ops.len() as int;
            let t = word_steps(s, c, ws, k);
            &&& t.used.len() == n
            &&& forall|w: Seq<char>| tally(n, #[trigger] gives(c, t.used, w)) == 0
            &&& t.adds - s.adds == tally(n, inserts_used(c, t.used)) - tally(
                n,
                inserts_used(c, s.used),
            )
        }),
    decreases ws.len() - k,
{
    let n = c.ops.len() as int;
    let words = words_only(ws);
    let rest = words.skip(k);
    if k < ws.len() {
        let (sid, word) = ws[k];
        let less = words.skip(k + 1);
        assert(words[k] == word);
        assert(rest =~= seq![word] + less);
        assert forall|w: Seq<char>| #[trigger] count_of(rest, w) == count_of(less, w) + (if w
            == word {
            1int
        } else {
            0
        }) by {
            lemma_count_front(word, less, w);
        }
        assert(tally(n, gives(c, s.used, word)) == count_of(rest, word));
        lemma_scan_serves(s, c, sid, word, 0);
        let t = word_step(s, c, sid, word);
        assert(t == scan_steps(s, c, sid, word, 0).0);
        assert forall|w: Seq<char>|
            tally(n, #[trigger] gives(c, t.used, w)) == count_of(less, w) by {
            assert(tally(n, gives(c, s.used, w)) == count_of(rest, w));
        }
        lemma_words_served(t, c, ws, k + 1);
    } else {
        assert(rest =~= Seq::<Seq<char>>::empty());
    }
}

proof fn lemma_count_front(x: Seq<char>, s: Seq<Seq<char>>, w: Seq<char>)
    ensures
        count_of(seq![x] + s, w) == count_of(s, w) + if x == w {
            1nat
        } else {
            0
        },
    decreases s.len(),
{
    let all = seq![x] + s;
    if s.len() == 0 {
        assert(all.drop_last() =~= Seq::empty());
        assert(count_of(all.drop_last(), w) == 0);
    } else {
        assert(all.drop_last() =~= seq![x] + s.drop_last());
        lemma_count_front(x, s.drop_last(), w);
    }
}

/// How many steps of a transcript insert something.
pub open spec fn insertions(ops: Seq<Step<Seq<char>>>) -> nat
    decreases ops.len(),
{
    if ops.len() == 0 {
        0
    } else {
        insertions(ops.drop_last()) + if ops.last() is Insert {
            1nat
        } else {
            0
        }
    }
}

/// Before any step is used, the steps give the words and take the earlier tokens.
proof fn lemma_begin(c: WordContext, used: Seq<bool>, n: int, w: Seq<char>)
    requires
        0 <= n <= c.ops.len(),
        used.len() == c.ops.len(),
        forall|i: int| 0 <= i < used.len() ==> !#[trigger] used[i],
    ensures
        tally(n, gives(c, used, w)) == count_of(curr_of(c.ops.take(n)), w),
        tally(n, takes(c, used, w)) == count_of(prev_of(c.ops.take(n)), w),
        tally(n, inserts_used(c, used)) == 0,
    decreases n,
{
    let t = c.ops.take(n);
    if n > 0 {
        lemma_begin(c, used, n - 1, w);
        assert(t.drop_last() =~= c.ops.take(n - 1));
        assert(t.last() == c.ops[n - 1]);
        assert(!used[n - 1]);
        let text = step_text(c.ops[n - 1]);
        let curr = curr_of(t.drop_last());
        let prev = prev_of(t.drop_last());
        assert((curr + seq![text]).drop_last() =~= curr);
        assert((prev + seq![text]).drop_last() =~= prev);
        assert(curr + Seq::<Seq<char>>::empty() =~= curr);
        assert(prev + Seq::<Seq<char>>::empty() =~= prev);
    } else {
        assert(t =~= Seq::empty());
    }
}

/// Once all that is given is used, all insertions are.
proof fn lemma_end(c: WordContext, used: Seq<bool>, n: int)
    requires
        0 <= n <= c.ops.len(),
        used.len() == c.ops.len(),
        forall|w: Seq<char>| tally(c.ops.len() as int, #[trigger] gives(c, used, w)) == 0,
    ensures
        tally(n, inserts_used(c, used)) == insertions(c.ops.take(n)),
    decreases n,
{
    let t = c.ops.take(n);
    if n > 0 {
        lemma_end(c, used, n - 1);
        assert(t.drop_last() =~= c.ops.take(n - 1));
        assert(t.last() == c.ops[n - 1]);
        let text = step_text(c.ops[n - 1]);
        lemma_tally_found(c.ops.len() as int, gives(c, used, text));
        assert(!gives(c, used, text)(n - 1));
    } else {
        assert(t =~= Seq::empty());
    }
}

/// The texts of tokens none of which is used.
proof fn lemma_all_free(c: WordContext, tokens: Set<usize>, n: int, w: Seq<char>)
    requires
        0 <= n <= c.prev_ids.len(),
        c.prev_ids.len() == c.prev_texts.len(),
        forall|i: int| 0 <= i < c.prev_ids.len() ==> !tokens.contains(#[trigger] c.prev_ids[i]),
    ensures
        tally(n, frees(c, tokens, w)) == count_of(c.prev_texts.take(n), w),
    decreases n,
{
    let t = c.prev_texts.take(n);
    if n > 0 {
        lemma_all_free(c, tokens, n - 1, w);
        assert(t.drop_last() =~= c.prev_texts.take(n - 1));
        assert(!tokens.contains(c.prev_ids[n - 1]));
    } else {
        assert(t =~= Seq::empty());
    }
}

proof fn lemma_left_free(ids: Seq<usize>, set: Set<usize>)
    ensures
        forall|i: int| 0 <= i < not_in(ids, set).len() ==> !set.contains(
            #[trigger] not_in(ids, set)[i],
        ),
    decreases ids.len(),
{
    if ids.len() > 0 {
        let less = not_in(ids.drop_last(), set);
        let all = not_in(ids, set);
        lemma_left_free(ids.drop_last(), set);
        assert forall|i: int| 0 <= i < all.len() implies !set.contains(#[trigger] all[i]) by {
            if i < less.len() {
                assert(all[i] == less[i]);
            }
        }
    }
}

/// The words of a text are written anew just where the transcript inserts them: of the
/// words that new sentences bring, as many become new tokens as the transcript from the
/// earlier tokens left over inserts, and all others are read with those. Where none is
/// left over all are new.
pub proof fn only_inserted_words_are_new(
    a: ArticleView,
    curr: Seq<usize>,
    prev: Seq<usize>,
    suspect: bool,
    rev: u64,
    adds: nat,
    tokens: Set<usize>,
)
    requires
        ({
            let ids = not_in(words_of(a.sentences, prev), tokens);
            forall|i: int, k: int| 0 <= i < k < ids.len() ==> ids[i] != ids[k]
        }),
        !word_level(a, curr, prev, suspect, rev, adds, tokens).vandalism,
    ensures
        ({
            let words = words_only(sentence_words(a, curr));
            let ids = not_in(words_of(a.sentences, prev), tokens);
            let w = word_level(a, curr, prev, suspect, rev, adds, tokens);
            w.adds == adds + if ids.len() == 0 {
                words.len()
            } else if words.len() == 0 {
                0
            } else {
                insertions(transcript(word_values(a, ids), words))
            }
        }),
{
    let ws = sentence_words(a, curr);
    let words = words_only(ws);
    let ids = not_in(words_of(a.sentences, prev), tokens);
    let old_texts = word_values(a, ids);
    let c = WordContext {
        prev_ids: ids,
        prev_texts: old_texts,
        ops: transcript(old_texts, words),
        rev,
    };
    let n = c.ops.len() as int;
    let s = WordState {
        article: a,
        tokens,
        words: Seq::empty(),
        used: Seq::new(c.ops.len(), |i: int| false),
        adds,
    };
    if ws.len() > 0 && ids.len() > 0 {
        transcript_reconstructs(old_texts, words);
        lemma_left_free(words_of(a.sentences, prev), tokens);
        assert(c.ops.take(n) =~= c.ops);
        assert(old_texts.take(ids.len() as int) =~= old_texts);
        assert forall|w: Seq<char>|
            tally(n, #[trigger] takes(c, s.used, w)) == tally(
                ids.len() as int,
                frees(c, s.tokens, w),
            ) by {
            lemma_begin(c, s.used, n, w);
            lemma_all_free(c, tokens, ids.len() as int, w);
        }
        assert(is_even(s, c));
        assert(words.skip(0) =~= words);
        assert forall|w: Seq<char>|
            tally(n, #[trigger] gives(c, s.used, w)) == count_of(words.skip(0), w) by {
            lemma_begin(c, s.used, n, w);
        }
        lemma_words_served(s, c, ws, 0);
        lemma_begin(c, s.used, n, Seq::empty());
        let t = word_steps(s, c, ws, 0);
        lemma_end(c, t.used, n);
    }
}

} // verus!
