//! Who is named where a page is marked: what stands inside which span.
use crate::text::occurs_at;
use crate::whocolor_wikitext::{
    all_ascii, ascii_end, ascii_lower, ascii_occurs_at, begun, caseless_end, closed, earlier,
    elem_end, first_at, found, frame_action, lemma_begun, lemma_next_markup, lemma_push,
    lemma_step_decreases, lemma_step_pieces, lemma_token_set, marked, markups, next_markup,
    outermost, pieces_ok, put_out, respanned, search_ok, searched, span_open, step, token_set,
    Action, ElemView, FrameView, Job, PatternView, Piece, Progress,
};
use vstd::prelude::*;

verus! {

/// Whether a markup starts as a link does.
pub open spec fn is_link(markup: int) -> bool {
    &&& 0 <= markup < markups().len()
    &&& markups()[markup].start == PatternView::Plain("[["@) || markups()[markup].start
        == PatternView::Plain("["@)
}

/// Whether there is no markup in a source but links.
pub open spec fn has_links_only(text: Seq<char>) -> bool {
    forall|i: int, pos: int|
        0 <= i < markups().len() && (#[trigger] found(markups()[i].start, text, pos)) is Some
            ==> is_link(i)
}

/// Whether there is no markup in a source.
pub open spec fn is_plain(text: Seq<char>) -> bool {
    forall|i: int, pos: int|
        0 <= i < markups().len() ==> (#[trigger] found(markups()[i].start, text, pos)) is None
}

/// Whether some token is found in the source.
pub open spec fn has_token(j: Job) -> bool {
    exists|i: int|
        0 <= i < j.tokens.len() && caseless_end(j.text, 0, (#[trigger] j.tokens[i]).str) is Some
}

/// Whether all text stands inside spans.
pub open spec fn is_spanned(ps: Seq<Piece>) -> bool {
    forall|i: int|
        0 <= i < ps.len() && (#[trigger] ps[i]) is Text ==> span_open(ps.take(i)) == Some(true)
}

/// Whether every span names a token by its class and index, those of later tokens
/// later.
pub open spec fn names_tokens(j: Job, ps: Seq<Piece>) -> bool {
    &&& forall|i: int|
        0 <= i < ps.len() && (#[trigger] ps[i]) is Open ==> 0 <= ps[i]->Open_1 < j.tokens.len()
            && ps[i]->Open_0 == j.tokens[ps[i]->Open_1].class_name
    &&& forall|i: int, k: int|
        0 <= i < k < ps.len() && (#[trigger] ps[i]) is Open && (#[trigger] ps[k]) is Open
            ==> ps[i]->Open_1 <= ps[k]->Open_1
}

proof fn lemma_links_have_spans(markup: int)
    requires
        is_link(markup),
    ensures
        !markups()[markup].no_spans,
{
    reveal_strlit("[[");
    reveal_strlit("[");
    reveal_strlit("{{");
    reveal_strlit("{|");
    assert("[["@ != "["@ && "[["@ != "{{"@ && "[["@ != "{|"@) by {
        assert("[["@[0] == '[' && "{{"@[0] == '{' && "{|"@[0] == '{');
        assert("[["@.len() == 2 && "["@.len() == 1);
    }
    assert("["@ != "{{"@ && "["@ != "{|"@) by {
        assert("{{"@.len() == 2 && "{|"@.len() == 2 && "["@.len() == 1);
    }
}

proof fn lemma_token_at_first(j: Job, s: Progress, i: int)
    requires
        s.pos == 0,
        0 <= s.index <= i < j.tokens.len(),
        caseless_end(j.text, 0, j.tokens[i].str) is Some,
    ensures
        token_set(j, s).token_end is Some,
    decreases i - s.index,
{
    if s.index < i && caseless_end(j.text, 0, j.tokens[s.index].str) is None {
        lemma_token_at_first(j, Progress { index: s.index + 1, ..s }, i);
    }
}

proof fn lemma_next_link(
    text: Seq<char>,
    pos: int,
    jumped: Set<int>,
    i: int,
    best: Option<ElemView>,
)
    requires
        has_links_only(text),
        0 <= i,
        best is Some ==> is_link(best->0.markup),
    ensures
        ({
            let r = next_markup(text, pos, jumped, i, best);
            r is Some ==> is_link(r->0.markup)
        }),
    decreases markups().len() - i,
{
    if i < markups().len() {
        let here = found(markups()[i].start, text, pos);
        lemma_next_link(text, pos, jumped, i + 1, earlier(here, jumped, i, best));
    }
}

proof fn lemma_no_next(text: Seq<char>, pos: int, jumped: Set<int>, i: int)
    requires
        is_plain(text),
        0 <= i,
    ensures
        next_markup(text, pos, jumped, i, None) is None,
    decreases markups().len() - i,
{
    if i < markups().len() {
        assert(found(markups()[i].start, text, pos) is None);
        lemma_no_next(text, pos, jumped, i + 1);
    }
}

/// The markup that is gone into next is the first: no markup that was not gone into
/// starts before it, and where there is one, one is gone into.
pub proof fn no_markup_comes_earlier(text: Seq<char>, pos: int, jumped: Set<int>, i: int)
    requires
        0 <= i < markups().len(),
        found(markups()[i].start, text, pos) is Some,
        !jumped.contains(found(markups()[i].start, text, pos)->0.from),
    ensures
        ({
            let next = next_markup(text, pos, jumped, 0, None);
            &&& next is Some
            &&& pos <= next->0.start <= found(markups()[i].start, text, pos)->0.from
            &&& !jumped.contains(next->0.start)
            &&& 0 <= next->0.markup < markups().len()
            &&& found(markups()[next->0.markup].start, text, pos) is Some
            &&& found(markups()[next->0.markup].start, text, pos)->0.from == next->0.start
        }),
{
    lemma_next_markup(text, pos, jumped, 0, None);
    lemma_next_first(text, pos, jumped, 0, None, i);
}

proof fn lemma_next_first(
    text: Seq<char>,
    pos: int,
    jumped: Set<int>,
    k: int,
    best: Option<ElemView>,
    i: int,
)
    requires
        0 <= k,
        0 <= i < markups().len(),
        found(markups()[i].start, text, pos) is Some,
        !jumped.contains(found(markups()[i].start, text, pos)->0.from),
        i < k ==> best is Some && best->0.start <= found(markups()[i].start, text, pos)->0.from,
        best is Some ==> 0 <= best->0.markup < markups().len() && found(
            markups()[best->0.markup].start,
            text,
            pos,
        ) is Some && found(markups()[best->0.markup].start, text, pos)->0.from == best->0.start,
    ensures
        ({
            let next = next_markup(text, pos, jumped, k, best);
            &&& next is Some
            &&& next->0.start <= found(markups()[i].start, text, pos)->0.from
            &&& found(markups()[next->0.markup].start, text, pos) is Some
            &&& found(markups()[next->0.markup].start, text, pos)->0.from == next->0.start
        }),
    decreases markups().len() - k,
{
    if k < markups().len() {
        let here = found(markups()[k].start, text, pos);
        lemma_next_first(text, pos, jumped, k + 1, earlier(here, jumped, k, best), i);
    }
}

/// A token that no markup comes before is put out in a span of its own: the span names
/// it by its class and index, and holds the source up to where the token ends.
pub proof fn tokens_get_their_spans(j: Job, s: Progress, frames: Seq<FrameView>)
    requires
        search_ok(j, s, frames),
        frames.len() == 1,
        s.token_end is Some,
        frames[0].next is Some ==> frames[0].next->0.start >= s.token_end->0,
    ensures
        ({
            let (t, rest) = step(j, s, frames);
            let n = t.pieces.len();
            &&& rest == frames
            &&& t.open
            &&& t.pos == s.token_end->0
            &&& t.index > s.index
            &&& n >= 2
            &&& s.pieces.is_prefix_of(t.pieces)
            &&& n == s.pieces.len() + if s.open {
                3int
            } else {
                2
            }
            &&& s.open ==> t.pieces[n - 3] == Piece::Close
            &&& t.pieces[n - 2] == Piece::Open(j.tokens[s.index].class_name, s.index)
            &&& t.pieces[n - 1] == Piece::Text(j.text.subrange(s.pos, s.token_end->0))
        }),
{
    let u = put_out(j, respanned(j, s, true), s.token_end->0);
    lemma_token_set(j, Progress { index: u.index + 1, ..u });
    assert(frames[0].elem is None);
}

/// A link that starts outside of any markup, before the token at hand, is gone into
/// with a span for that token around it.
pub proof fn links_get_spans(j: Job, s: Progress, frames: Seq<FrameView>)
    requires
        search_ok(j, s, frames),
        frames.len() == 1,
        s.token_end is Some,
        frames[0].next is Some,
        frames[0].next->0.start < s.token_end->0,
        is_link(frames[0].next->0.markup),
    ensures
        ({
            let (t, rest) = step(j, s, frames);
            &&& rest.len() == 2
            &&& rest[1].elem == frames[0].next
            &&& t.open
            &&& t.pos == s.pos
            &&& t.index == s.index
            &&& s.pieces.is_prefix_of(t.pieces)
            &&& t.pieces.len() > s.pieces.len()
            &&& t.pieces.last() == Piece::Open(j.tokens[s.index].class_name, s.index)
        }),
{
    assert(frames[0].elem is None);
    lemma_links_have_spans(frames[0].next->0.markup);
}

/// Any other markup outside of which a token is looked for is gone into with no span
/// around it.
pub proof fn other_markup_gets_no_span(j: Job, s: Progress, frames: Seq<FrameView>)
    requires
        search_ok(j, s, frames),
        frames.len() == 1,
        s.token_end is Some,
        frames[0].next is Some,
        frames[0].next->0.start < s.token_end->0,
        !is_link(frames[0].next->0.markup),
    ensures
        ({
            let (t, rest) = step(j, s, frames);
            &&& rest.len() == 2
            &&& rest[1].elem == frames[0].next
            &&& !t.open
            &&& t.pos == s.pos
            &&& t.index == s.index
        }),
{
    assert(frames[0].elem is None);
    let m = frames[0].next->0.markup;
    assert(0 <= m < markups().len());
}

/// What the search keeps where there are links only: whatever was put out stands in a
/// span, and one is open until the end.
spec fn all_spanned(j: Job, s: Progress, frames: Seq<FrameView>) -> bool {
    &&& pieces_ok(j, s)
    &&& is_spanned(s.pieces)
    &&& s.pieces.len() == 0 ==> s.token_end is Some && frames.len() == 1
    &&& s.pieces.len() > 0 ==> s.open || s.pos == j.text.len()
    &&& forall|i: int|
        0 <= i < frames.len() && (#[trigger] frames[i]).next is Some ==> is_link(
            frames[i].next->0.markup,
        )
}

proof fn lemma_spanned_push(ps: Seq<Piece>, p: Piece)
    requires
        is_spanned(ps),
        p is Text ==> span_open(ps) == Some(true),
    ensures
        is_spanned(ps.push(p)),
{
    let qs = ps.push(p);
    assert forall|i: int| 0 <= i < qs.len() && (#[trigger] qs[i]) is Text implies span_open(
        qs.take(i),
    ) == Some(true) by {
        if i < ps.len() {
            assert(qs[i] == ps[i]);
            assert(qs.take(i) =~= ps.take(i));
        } else {
            assert(qs.take(i) =~= ps);
        }
    }
}

proof fn lemma_closed_spanned(s: Progress)
    requires
        span_open(s.pieces) == Some(s.open),
        is_spanned(s.pieces),
    ensures
        is_spanned(closed(s).pieces),
        span_open(closed(s).pieces) == Some(false),
{
    if s.open {
        lemma_push(s.pieces, Piece::Close);
        lemma_spanned_push(s.pieces, Piece::Close);
        assert(span_open(s.pieces.push(Piece::Close)) == Some(false));
    }
}

proof fn lemma_respanned_spanned(j: Job, s: Progress)
    requires
        span_open(s.pieces) == Some(s.open),
        is_spanned(s.pieces),
    ensures
        is_spanned(closed(s).pieces),
        is_spanned(respanned(j, s, true).pieces),
        span_open(respanned(j, s, true).pieces) == Some(true),
{
    let open = Piece::Open(j.tokens[s.index].class_name, s.index);
    let ps = closed(s).pieces;
    lemma_closed_spanned(s);
    lemma_push(ps, open);
    lemma_spanned_push(ps, open);
    assert(span_open(ps.push(open)) == Some(true));
}

proof fn lemma_step_spanned(j: Job, s: Progress, frames: Seq<FrameView>)
    requires
        search_ok(j, s, frames),
        frames.len() > 0,
        all_spanned(j, s, frames),
        has_links_only(j.text),
    ensures
        all_spanned(j, step(j, s, frames).0, step(j, s, frames).1),
{
    let f = frames.last();
    let (t, rest) = step(j, s, frames);
    let n = j.text.len() as int;
    lemma_step_pieces(j, s, frames);
    lemma_respanned_spanned(j, s);
    lemma_next_link(j.text, t.pos, t.jumped, 0, None);
    match frame_action(j, s, f) {
        Action::Finish => {},
        Action::Flush => {
            let u = put_out(j, s, n);
            lemma_spanned_push(s.pieces, Piece::Text(j.text.subrange(s.pos, n)));
            lemma_spanned_push(u.pieces, Piece::Close);
        },
        Action::Jump => {
            assert(is_link(f.next->0.markup));
            lemma_links_have_spans(f.next->0.markup);
            lemma_respanned_spanned(
                j,
                Progress { jumped: s.jumped.insert(f.next->0.start), ..s },
            );
            assert(rest.drop_last() =~= frames);
        },
        Action::Leave => {
            lemma_spanned_push(
                s.pieces,
                Piece::Text(j.text.subrange(s.pos, f.elem_end->0.to)),
            );
        },
        Action::Advance => {
            let u = if f.elem is None {
                respanned(j, s, true)
            } else {
                s
            };
            let v = put_out(j, u, s.token_end->0);
            lemma_spanned_push(
                u.pieces,
                Piece::Text(j.text.subrange(s.pos, s.token_end->0)),
            );
            lemma_token_set(j, Progress { index: v.index + 1, ..v });
        },
    }
}

proof fn lemma_searched_spanned(j: Job, s: Progress, frames: Seq<FrameView>)
    requires
        search_ok(j, s, frames),
        all_spanned(j, s, frames),
        has_links_only(j.text),
    ensures
        is_spanned(searched(j, s, frames).pieces),
    decreases j.text.len() - s.jumped.len(), j.tokens.len() - s.index, frames.len(),
{
    if frames.len() > 0 {
        lemma_step_decreases(j, s, frames);
        lemma_step_spanned(j, s, frames);
        let (t, rest) = step(j, s, frames);
        lemma_searched_spanned(j, t, rest);
    }
}

/// In a source with no markup but links, in which some token is found, all text stands
/// inside spans, links as well: every part of it has an author.
pub proof fn links_and_text_are_spanned(j: Job)
    requires
        has_links_only(j.text),
        has_token(j),
    ensures
        is_spanned(marked(j).pieces),
{
    let i = choose|i: int|
        0 <= i < j.tokens.len() && caseless_end(j.text, 0, (#[trigger] j.tokens[i]).str) is Some;
    let s = Progress {
        pos: 0,
        index: 0,
        token_end: None,
        open: false,
        jumped: Set::empty(),
        pieces: Seq::empty(),
        editors: Seq::empty(),
    };
    lemma_token_at_first(j, s, i);
    lemma_begun(j);
    lemma_next_link(j.text, 0, Set::empty(), 0, None);
    let frames = seq![outermost(j, begun(j))];
    assert(j.text.take(0) =~= Seq::empty());
    assert(is_spanned(begun(j).pieces));
    lemma_searched_spanned(j, begun(j), frames);
}

/// What the search keeps of the names: none is of a token after the one at hand.
spec fn names_ok(j: Job, s: Progress) -> bool {
    &&& names_tokens(j, s.pieces)
    &&& forall|i: int|
        0 <= i < s.pieces.len() && (#[trigger] s.pieces[i]) is Open ==> s.pieces[i]->Open_1
            <= s.index
}

proof fn lemma_step_names(j: Job, s: Progress, frames: Seq<FrameView>)
    requires
        search_ok(j, s, frames),
        frames.len() > 0,
        names_ok(j, s),
    ensures
        names_ok(j, step(j, s, frames).0),
{
    let f = frames.last();
    let (t, rest) = step(j, s, frames);
    if frame_action(j, s, f) == Action::Advance {
        let u = if f.elem is None {
            respanned(j, s, true)
        } else {
            s
        };
        let v = put_out(j, u, s.token_end->0);
        lemma_token_set(j, Progress { index: v.index + 1, ..v });
        assert(t.pieces == v.pieces);
    }
    assert forall|i: int| 0 <= i < t.pieces.len() && (#[trigger] t.pieces[i]) is Open implies 0
        <= t.pieces[i]->Open_1 < j.tokens.len() && t.pieces[i]->Open_0
        == j.tokens[t.pieces[i]->Open_1].class_name && t.pieces[i]->Open_1 <= t.index by {
        if i < s.pieces.len() {
            assert(t.pieces[i] == s.pieces[i]);
        }
    }
    assert forall|i: int, k: int|
        0 <= i < k < t.pieces.len() && (#[trigger] t.pieces[i]) is Open && (
        #[trigger] t.pieces[k]) is Open implies t.pieces[i]->Open_1 <= t.pieces[k]->Open_1 by {
        assert(i < s.pieces.len() ==> t.pieces[i] == s.pieces[i]);
        assert(k < s.pieces.len() ==> t.pieces[k] == s.pieces[k]);
    }
}

proof fn lemma_searched_names(j: Job, s: Progress, frames: Seq<FrameView>)
    requires
        search_ok(j, s, frames),
        names_ok(j, s),
    ensures
        names_tokens(j, searched(j, s, frames).pieces),
    decreases j.text.len() - s.jumped.len(), j.tokens.len() - s.index, frames.len(),
{
    if frames.len() > 0 {
        lemma_step_decreases(j, s, frames);
        lemma_step_names(j, s, frames);
        let (t, rest) = step(j, s, frames);
        lemma_searched_names(j, t, rest);
    }
}

/// Every span names one of the tokens looked for, by its own class and its index, and
/// the tokens come in order.
pub proof fn spans_name_tokens(j: Job)
    ensures
        names_tokens(j, marked(j).pieces),
{
    lemma_begun(j);
    lemma_searched_names(j, begun(j), seq![outermost(j, begun(j))]);
}

/// The tokens that are found one after the other, from the `k`th on and from `pos` on:
/// which, and where each ends.
pub open spec fn found_in_turn(j: Job, pos: int, k: int) -> Seq<(int, int)>
    decreases j.tokens.len() - k,
{
    if k < 0 || k >= j.tokens.len() {
        Seq::empty()
    } else {
        match caseless_end(j.text, pos, j.tokens[k].str) {
            Some(e) => seq![(k, e)] + found_in_turn(j, e, k + 1),
            None => found_in_turn(j, pos, k + 1),
        }
    }
}

/// Spans around the parts of a source that end with the tokens found: each names its
/// token, and the last goes on to the end.
pub open spec fn spans_of(j: Job, pos: int, tokens: Seq<(int, int)>) -> Seq<Piece>
    decreases tokens.len(),
{
    if tokens.len() == 0 {
        Seq::empty()
    } else {
        let (k, e) = tokens[0];
        let rest = tokens.skip(1);
        let here = seq![
            Piece::Open(j.tokens[k].class_name, k),
            Piece::Text(j.text.subrange(pos, e)),
        ];
        if rest.len() == 0 && e < j.text.len() {
            here.push(Piece::Text(j.text.subrange(e, j.text.len() as int))).push(Piece::Close)
        } else {
            here.push(Piece::Close) + spans_of(j, e, rest)
        }
    }
}

/// The next token that is found is the first of those found in turn.
proof fn lemma_set_in_turn(j: Job, s: Progress)
    requires
        0 <= s.index <= j.tokens.len(),
        0 <= s.pos <= j.text.len(),
    ensures
        ({
            let t = token_set(j, s);
            let v = found_in_turn(j, s.pos, s.index);
            match t.token_end {
                None => v.len() == 0,
                Some(e) => v == seq![(t.index, e)] + found_in_turn(j, e, t.index + 1),
            }
        }),
    decreases j.tokens.len() - s.index,
{
    if s.index < j.tokens.len() && caseless_end(j.text, s.pos, j.tokens[s.index].str) is None {
        lemma_set_in_turn(j, Progress { index: s.index + 1, ..s });
    }
}

/// The tokens found, the one at hand first.
spec fn at_hand(j: Job, s: Progress) -> Seq<(int, int)> {
    match s.token_end {
        Some(e) => seq![(s.index, e)] + found_in_turn(j, e, s.index + 1),
        None => Seq::empty(),
    }
}

/// What is still to come in a source without markup.
spec fn to_come(j: Job, s: Progress) -> Seq<Piece> {
    let n = j.text.len() as int;
    let end = if s.open {
        seq![Piece::Close]
    } else {
        Seq::empty()
    };
    if s.pos < n && s.token_end is None {
        seq![Piece::Text(j.text.subrange(s.pos, n))] + end
    } else {
        end + spans_of(j, s.pos, at_hand(j, s))
    }
}

proof fn lemma_plain_search(j: Job, s: Progress)
    requires
        is_plain(j.text),
        search_ok(j, s, seq![outermost(j, s)]),
    ensures
        searched(j, s, seq![outermost(j, s)]).pieces == s.pieces + to_come(j, s),
    decreases j.tokens.len() - s.index,
{
    let f = outermost(j, s);
    let frames = seq![f];
    let n = j.text.len() as int;
    let (t, rest) = step(j, s, frames);
    lemma_no_next(j.text, s.pos, s.jumped, 0);
    lemma_step_decreases(j, s, frames);
    assert(frames.last() == f);
    assert(frames.drop_last() =~= Seq::<FrameView>::empty());
    assert(searched(j, s, frames) == searched(j, t, rest));
    if s.pos >= n {
        assert(s.token_end is None);
        assert(at_hand(j, s) =~= Seq::empty());
        assert(rest =~= Seq::<FrameView>::empty());
        assert(t.pieces =~= s.pieces + to_come(j, s));
    } else if s.token_end is None {
        assert(rest =~= Seq::<FrameView>::empty());
        assert(t.pieces =~= s.pieces + to_come(j, s));
    } else {
        let e = s.token_end->0;
        let u = put_out(j, respanned(j, s, true), e);
        let w = Progress { index: u.index + 1, ..u };
        lemma_token_set(j, w);
        lemma_set_in_turn(j, w);
        lemma_no_next(j.text, t.pos, t.jumped, 0);
        assert(t == token_set(j, w));
        assert(rest == frames);
        assert(outermost(j, t) == f);
        assert(rest =~= seq![outermost(j, t)]);
        lemma_plain_search(j, t);
        let v = at_hand(j, s);
        assert(v[0] == (s.index, e));
        assert(v.skip(1) =~= found_in_turn(j, e, s.index + 1));
        assert(at_hand(j, t) =~= v.skip(1));
        assert(s.pieces + to_come(j, s) =~= t.pieces + to_come(j, t));
    }
}

/// In a source without markup the tokens are found one after the other, and each has
/// its span: it begins where the one before ends, and the last goes on to the end.
/// Where no token is found nothing has a span.
pub proof fn plain_source_is_spanned_by_tokens(j: Job)
    requires
        is_plain(j.text),
        j.text.len() > 0,
    ensures
        ({
            let tokens = found_in_turn(j, 0, 0);
            marked(j).pieces == if tokens.len() == 0 {
                seq![Piece::Text(j.text)]
            } else {
                spans_of(j, 0, tokens)
            }
        }),
{
    let s = Progress {
        pos: 0,
        index: 0,
        token_end: None,
        open: false,
        jumped: Set::empty(),
        pieces: Seq::empty(),
        editors: Seq::empty(),
    };
    lemma_begun(j);
    lemma_set_in_turn(j, s);
    lemma_plain_search(j, begun(j));
    assert(j.text.subrange(0, j.text.len() as int) =~= j.text);
    assert(at_hand(j, begun(j)) =~= found_in_turn(j, 0, 0));
    let none = Seq::<Piece>::empty();
    assert(none + to_come(j, begun(j)) =~= to_come(j, begun(j)));
    assert(none + spans_of(j, 0, found_in_turn(j, 0, 0)) =~= spans_of(
        j,
        0,
        found_in_turn(j, 0, 0),
    ));
}

/// A token that stands in the source is found, at its first place or before it: where
/// one is found, the source has the token there but for capitals.
pub proof fn tokens_that_stand_there_are_found(text: Seq<char>, pos: int, token: Seq<char>, i: int)
    requires
        0 <= pos <= i,
        i + token.len() <= text.len(),
        token.len() > 0,
        all_ascii(token),
        all_ascii(text),
        forall|k: int|
            0 <= k < token.len() ==> ascii_lower(#[trigger] text[i + k]) == ascii_lower(token[k]),
    ensures
        ({
            let end = caseless_end(text, pos, token);
            &&& end is Some
            &&& pos + token.len() <= end->0 <= i + token.len()
            &&& forall|k: int|
                0 <= k < token.len() ==> ascii_lower(text[end->0 - token.len() + k])
                    == ascii_lower(#[trigger] token[k])
        }),
{
    let rest = text.subrange(pos, text.len() as int);
    assert(all_ascii(rest)) by {
        assert forall|k: int| 0 <= k < rest.len() implies (#[trigger] rest[k] as int) < 128 by {
            assert(rest[k] == text[pos + k]);
        }
    }
    lemma_ascii_first(text, token, pos, i);
}

proof fn lemma_ascii_first(text: Seq<char>, token: Seq<char>, pos: int, i: int)
    requires
        0 <= pos <= i,
        token.len() > 0,
        ascii_occurs_at(text, token, i),
    ensures
        ({
            let end = ascii_end(text, token, pos);
            &&& end is Some
            &&& pos + token.len() <= end->0 <= i + token.len()
            &&& ascii_occurs_at(text, token, end->0 - token.len())
        }),
    decreases i - pos,
{
    if !ascii_occurs_at(text, token, pos) {
        lemma_ascii_first(text, token, pos + 1, i);
    }
}

/// A markup that starts with a text is found where that text stands first.
pub proof fn markup_is_found_first(text: Seq<char>, pos: int, start: Seq<char>, i: int)
    requires
        0 <= pos <= i < text.len(),
        occurs_at(text, start, i),
    ensures
        ({
            let at = found(PatternView::Plain(start), text, pos);
            &&& at is Some
            &&& pos <= at->0.from <= i
            &&& at->0.to == at->0.from + start.len()
            &&& occurs_at(text, start, at->0.from)
            &&& forall|k: int| pos <= k < at->0.from ==> !#[trigger] occurs_at(text, start, k)
        }),
{
    lemma_first_place(text, start, pos, i);
}

proof fn lemma_first_place(text: Seq<char>, start: Seq<char>, pos: int, i: int)
    requires
        0 <= pos <= i < text.len(),
        occurs_at(text, start, i),
    ensures
        ({
            let at = first_at(text, start, pos);
            &&& at is Some
            &&& pos <= at->0 <= i
            &&& occurs_at(text, start, at->0)
            &&& forall|k: int| pos <= k < at->0 ==> !#[trigger] occurs_at(text, start, k)
        }),
    decreases i - pos,
{
    if !occurs_at(text, start, pos) {
        lemma_first_place(text, start, pos + 1, i);
    }
}

/// A link ends with the first two brackets that close it, and with the source where
/// there are none.
pub proof fn links_end_with_their_brackets(text: Seq<char>, pos: int, e: ElemView)
    requires
        0 <= e.markup < markups().len(),
        markups()[e.markup].start == PatternView::Plain("[["@),
        0 <= pos < text.len(),
    ensures
        ({
            let end = elem_end(text, pos, e);
            &&& forall|i: int|
                pos <= i < text.len() && #[trigger] occurs_at(text, "]]"@, i) ==> end.from <= i
                    && end.to == end.from + 2 && occurs_at(text, "]]"@, end.from)
            &&& (forall|i: int| pos <= i < text.len() ==> !#[trigger] occurs_at(text, "]]"@, i))
                ==> end.from == text.len() && end.to == text.len()
        }),
{
    reveal_strlit("[[");
    reveal_strlit("]]");
    reveal_strlit("[");
    reveal_strlit("{{");
    reveal_strlit("{|");
    assert("[["@[0] == '[' && "{{"@[0] == '{' && "{|"@[0] == '{');
    assert("[["@.len() == 2 && "["@.len() == 1);
    assert("]]"@.len() == 2);
    assert(e.markup == 0);
    assert(markups()[e.markup].end == Some(PatternView::Plain("]]"@)));
    assert forall|i: int| pos <= i < text.len() && #[trigger] occurs_at(text, "]]"@, i) implies ({
        let end = elem_end(text, pos, e);
        end.from <= i && end.to == end.from + 2 && occurs_at(text, "]]"@, end.from)
    }) by {
        lemma_first_place(text, "]]"@, pos, i);
    }
    if forall|i: int| pos <= i < text.len() ==> !#[trigger] occurs_at(text, "]]"@, i) {
        crate::whocolor_wikitext::lemma_first_at(text, "]]"@, pos);
    }
}

} // verus!
