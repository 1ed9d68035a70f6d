//! Marking the author of each token in a rendered page.
//!
//! The page is taken apart into tags and text. Tokens are found one after the other
//! in the text as a whole, and the page is put together again with a span around
//! each of them.
use crate::outside::{
    html_node, html_tree, lower_char, lowercase, lowered_char, md5_digest, md5_hex, parse_html,
    parsed_size, to_lowercase,
};
pub use crate::whocolor_wikitext::PresentEditorEntry;
use crate::text::{begins_with, chars_of, concat_text, decimal, decimal_text, push_all, same_text, string_from};
use crate::whocolor_wikitext::{
    count_bytes, editor_counted, editor_place, lemma_counted_insert, lemma_editor_counted,
    lemma_editor_place, lemma_ranked_once, present, push_str, rank_editors, ranked, text_bytes,
    tokens_counted, told_once, PresentView, SoughtView,
};
use vstd::prelude::*;

verus! {

/// An attribute of an element.
pub struct HtmlAttribute {
    pub prefix: Option<String>,
    pub local: String,
    pub value: String,
}

/// A node of a parsed page.
pub enum HtmlNode {
    Document(Vec<HtmlNode>),
    Doctype(String),
    Text(String),
    Comment(String),
    /// A processing instruction.
    Instruction,
    /// An element: its name, its attributes and what is in it.
    Element(String, Vec<HtmlAttribute>, Vec<HtmlNode>),
}

/// The model of an attribute.
pub struct AttributeView {
    pub prefix: Option<Seq<char>>,
    pub local: Seq<char>,
    pub value: Seq<char>,
}

impl View for HtmlAttribute {
    type V = AttributeView;

    open spec fn view(&self) -> AttributeView {
        AttributeView {
            prefix: match self.prefix {
                Some(p) => Some(p@),
                None => None,
            },
            local: self.local@,
            value: self.value@,
        }
    }
}

/// The models of several attributes.
pub open spec fn attributes(v: Seq<HtmlAttribute>) -> Seq<AttributeView> {
    v.map_values(|a: HtmlAttribute| a@)
}

/// The model of a parsed page.
pub enum HtmlTree {
    Document(Seq<HtmlTree>),
    Doctype(Seq<char>),
    Text(Seq<char>),
    Comment(Seq<char>),
    Instruction,
    Element(Seq<char>, Seq<AttributeView>, Seq<HtmlTree>),
}

/// What a node stands for.
pub open spec fn tree(n: HtmlNode) -> HtmlTree
    decreases n,
{
    match n {
        HtmlNode::Document(v) => HtmlTree::Document(
            Seq::new(
                v@.len(),
                |i: int|
                    if 0 <= i < v@.len() {
                        tree(v@[i])
                    } else {
                        HtmlTree::Instruction
                    },
            ),
        ),
        HtmlNode::Doctype(s) => HtmlTree::Doctype(s@),
        HtmlNode::Text(s) => HtmlTree::Text(s@),
        HtmlNode::Comment(s) => HtmlTree::Comment(s@),
        HtmlNode::Instruction => HtmlTree::Instruction,
        HtmlNode::Element(name, attrs, v) => HtmlTree::Element(
            name@,
            attributes(attrs@),
            Seq::new(
                v@.len(),
                |i: int|
                    if 0 <= i < v@.len() {
                        tree(v@[i])
                    } else {
                        HtmlTree::Instruction
                    },
            ),
        ),
    }
}

impl View for HtmlNode {
    type V = HtmlTree;

    open spec fn view(&self) -> HtmlTree {
        tree(*self)
    }
}

/// A part of a page.
pub enum HtmlEvent {
    OpenTag(String, Vec<(String, String)>),
    CloseTag(String),
    /// Text, and whether it is left out of the search.
    Text(String, bool),
    Comment(String),
    Doctype(String),
}

/// The model of a part of a page.
pub enum EventView {
    OpenTag(Seq<char>, Seq<(Seq<char>, Seq<char>)>),
    CloseTag(Seq<char>),
    Text(Seq<char>, bool),
    Comment(Seq<char>),
    Doctype(Seq<char>),
}

/// The names and values of several attributes.
pub open spec fn pairs(v: Seq<(String, String)>) -> Seq<(Seq<char>, Seq<char>)> {
    v.map_values(|p: (String, String)| (p.0@, p.1@))
}

impl View for HtmlEvent {
    type V = EventView;

    open spec fn view(&self) -> EventView {
        match self {
            HtmlEvent::OpenTag(tag, attrs) => EventView::OpenTag(tag@, pairs(attrs@)),
            HtmlEvent::CloseTag(tag) => EventView::CloseTag(tag@),
            HtmlEvent::Text(s, skip) => EventView::Text(s@, *skip),
            HtmlEvent::Comment(s) => EventView::Comment(s@),
            HtmlEvent::Doctype(s) => EventView::Doctype(s@),
        }
    }
}

/// The models of several parts.
pub open spec fn event_views(v: Seq<HtmlEvent>) -> Seq<EventView> {
    v.map_values(|e: HtmlEvent| e@)
}

/// Whether what is in the element is left out of the search.
pub open spec fn is_skipped(tag: Seq<char>) -> bool {
    ||| tag == "script"@
    ||| tag == "style"@
    ||| tag == "head"@
    ||| tag == "noscript"@
    ||| tag == "template"@
}

/// Whether the element has no end tag.
pub open spec fn is_void(tag: Seq<char>) -> bool {
    ||| tag == "area"@
    ||| tag == "base"@
    ||| tag == "br"@
    ||| tag == "col"@
    ||| tag == "embed"@
    ||| tag == "hr"@
    ||| tag == "img"@
    ||| tag == "input"@
    ||| tag == "link"@
    ||| tag == "meta"@
    ||| tag == "param"@
    ||| tag == "source"@
    ||| tag == "track"@
    ||| tag == "wbr"@
}

/// The name of an attribute as it is written.
pub open spec fn attribute_name(a: AttributeView) -> Seq<char> {
    match a.prefix {
        Some(p) => p + ":"@ + a.local,
        None => a.local,
    }
}

/// The names and values of attributes as they are written.
pub open spec fn attribute_pairs(v: Seq<AttributeView>) -> Seq<(Seq<char>, Seq<char>)> {
    v.map_values(|a: AttributeView| (attribute_name(a), a.value))
}

/// The parts of a page in order. `skip` is whether its text is left out of the
/// search.
pub open spec fn flattened(t: HtmlTree, skip: bool) -> Seq<EventView>
    decreases t, 0int,
{
    match t {
        HtmlTree::Document(v) => flattened_from(v, 0, skip),
        HtmlTree::Doctype(s) => seq![EventView::Doctype(s)],
        HtmlTree::Text(s) => seq![EventView::Text(s, skip)],
        HtmlTree::Comment(s) => seq![EventView::Comment(s)],
        HtmlTree::Instruction => Seq::empty(),
        HtmlTree::Element(tag, attrs, v) => {
            let open = EventView::OpenTag(tag, attribute_pairs(attrs));
            if is_void(tag) {
                seq![open]
            } else {
                seq![open] + flattened_from(v, 0, skip || is_skipped(tag)) + seq![
                    EventView::CloseTag(tag),
                ]
            }
        },
    }
}

/// The parts of the nodes from the `k`th on.
pub open spec fn flattened_from(v: Seq<HtmlTree>, k: int, skip: bool) -> Seq<EventView>
    decreases v, v.len() - k,
{
    if k < 0 || k >= v.len() {
        Seq::empty()
    } else {
        flattened(v[k], skip) + flattened_from(v, k + 1, skip)
    }
}

/// What names an editor in a class: the digest of an anonymous one, the id of a
/// registered one.
pub open spec fn class_name_of(editor: Seq<char>) -> Seq<char> {
    if editor.len() >= 2 && editor[0] == '0' && editor[1] == '|' {
        md5_hex(editor)
    } else {
        editor
    }
}

/// What names an editor in a class.
pub fn token_class_name(editor: &str) -> (r: String)
    ensures
        r@ == class_name_of(editor@),
{
    let c = chars_of(editor);
    if c.len() >= 2 && c[0] == '0' && c[1] == '|' {
        md5_digest(editor)
    } else {
        editor.to_owned()
    }
}

/// A token to be found in the page.
pub struct InjectionToken {
    pub str: String,
    pub editor: String,
    pub class_name: String,
}

impl View for InjectionToken {
    type V = SoughtView;

    open spec fn view(&self) -> SoughtView {
        SoughtView {
            str: self.str@,
            editor: self.editor@,
            class_name: self.class_name@,
        }
    }
}

/// The models of several tokens.
pub open spec fn wanted(v: Seq<InjectionToken>) -> Seq<SoughtView> {
    v.map_values(|t: InjectionToken| t@)
}

/// The page with spans, and the editors found in it.
pub struct InjectionResult {
    pub html: String,
    /// The editors, most tokens first; of equals, the one with the first token
    /// first.
    pub present_editors: Vec<PresentEditorEntry>,
}

/// The model of the page with spans.
pub struct HtmlInjectionView {
    pub html: Seq<char>,
    pub present_editors: Seq<PresentView>,
}

impl View for InjectionResult {
    type V = HtmlInjectionView;

    open spec fn view(&self) -> HtmlInjectionView {
        HtmlInjectionView {
            html: self.html@,
            present_editors: present(self.present_editors@),
        }
    }
}

/// Lowercase forms from `i` on put after `buf`, until `bytes` bytes are reached,
/// and where that was.
pub open spec fn gathered(hay: Seq<char>, bytes: int, i: int, buf: Seq<char>) -> (Seq<char>, int)
    decreases hay.len() - i,
{
    if i < 0 || i >= hay.len() {
        (buf, i)
    } else {
        let more = buf + lowered_char(hay[i]);
        if text_bytes(more) >= bytes {
            (more, i + 1)
        } else {
            gathered(hay, bytes, i + 1, more)
        }
    }
}

/// The first stretch from `i` on whose lowercase form begins with `low`: from, and
/// up to.
pub open spec fn lowered_match(hay: Seq<char>, low: Seq<char>, i: int) -> Option<(int, int)>
    decreases hay.len() - i,
{
    if i < 0 || i >= hay.len() {
        None
    } else {
        let (buf, end) = gathered(hay, text_bytes(low), i, Seq::empty());
        if low.is_prefix_of(buf) {
            Some((i, end))
        } else {
            lowered_match(hay, low, i + 1)
        }
    }
}

/// A token found: from, up to, and what names its editor.
pub struct MatchView {
    pub start: int,
    pub end: int,
    pub class_name: Seq<char>,
}

/// The tokens found in the text, and the editors in the order in which they were
/// found.
pub struct FoundView {
    pub matches: Seq<MatchView>,
    pub editors: Seq<PresentView>,
}

/// The tokens from the `k`th on looked for from `cursor` on, one after the other;
/// those that are not found are passed over.
pub open spec fn matched(
    text: Seq<char>,
    tokens: Seq<SoughtView>,
    k: int,
    cursor: int,
    so_far: FoundView,
) -> FoundView
    decreases tokens.len() - k,
{
    if k < 0 || k >= tokens.len() {
        so_far
    } else {
        let t = tokens[k];
        let at = if t.str.len() == 0 {
            None
        } else {
            lowered_match(text, lowercase(t.str), cursor)
        };
        match at {
            Some((start, end)) => matched(
                text,
                tokens,
                k + 1,
                end,
                FoundView {
                    matches: so_far.matches.push(
                        MatchView { start, end, class_name: t.class_name },
                    ),
                    editors: editor_counted(so_far.editors, t),
                },
            ),
            None => matched(text, tokens, k + 1, cursor, so_far),
        }
    }
}

/// The place of the first token of an editor.
pub open spec fn first_of_editor(tokens: Seq<SoughtView>, editor: Seq<char>, k: int) -> int
    decreases tokens.len() - k,
{
    if k < 0 || k >= tokens.len() {
        tokens.len() as int
    } else if tokens[k].editor == editor {
        k
    } else {
        first_of_editor(tokens, editor, k + 1)
    }
}

/// The editors found, in the order of their first tokens, from the `k`th token on.
pub open spec fn in_token_order(
    es: Seq<PresentView>,
    tokens: Seq<SoughtView>,
    k: int,
) -> Seq<PresentView>
    decreases tokens.len() - k,
{
    if k < 0 || k >= tokens.len() {
        Seq::empty()
    } else {
        let rest = in_token_order(es, tokens, k + 1);
        let at = editor_place(es, tokens[k].editor, 0);
        if at < es.len() && first_of_editor(tokens, tokens[k].editor, 0) == k {
            seq![es[at]] + rest
        } else {
            rest
        }
    }
}

/// The editors found: most tokens first; of equals, the one with the first token
/// first.
pub open spec fn ranked_editors(es: Seq<PresentView>, tokens: Seq<SoughtView>) -> Seq<PresentView> {
    let ordered = in_token_order(es, tokens, 0);
    ranked(ordered, ordered.len() as int)
}

/// A piece of a text: text, or a token in its span.
pub enum TextPiece {
    Plain(Seq<char>),
    Span(Seq<char>, int, Seq<char>),
}

/// A part of a text from `from` on as a piece, where there is any.
pub open spec fn plain_piece(contents: Seq<char>, from: int, to: int) -> Seq<TextPiece> {
    if from < to {
        seq![TextPiece::Plain(contents.subrange(from, to))]
    } else {
        Seq::empty()
    }
}

/// The pieces of a text that stands at `start` in the text as a whole: `local` is
/// how far it is put out, `m` the first match not yet put out. A token that goes on
/// in a later text is in its span up to the end of this one.
pub open spec fn text_pieces(
    contents: Seq<char>,
    start: int,
    ms: Seq<MatchView>,
    m: int,
    local: int,
) -> Seq<TextPiece>
    decreases ms.len() - m,
{
    let end = start + contents.len();
    if m < 0 || m >= ms.len() || ms[m].start >= end {
        plain_piece(contents, local, contents.len() as int)
    } else if ms[m].end <= start {
        text_pieces(contents, start, ms, m + 1, local)
    } else {
        let from = at_least(ms[m].start - start, 0);
        let to = at_most(at_least(ms[m].end - start, 0), contents.len() as int);
        plain_piece(contents, local, from) + seq![
            TextPiece::Span(ms[m].class_name, m, contents.subrange(from, to)),
        ] + text_pieces(contents, start, ms, m + 1, to)
    }
}

/// The first match not put out once the text is.
pub open spec fn next_match(end: int, ms: Seq<MatchView>, m: int) -> int
    decreases ms.len() - m,
{
    if m < 0 || m >= ms.len() || ms[m].start >= end {
        m
    } else {
        next_match(end, ms, m + 1)
    }
}

/// The larger of two numbers.
pub open spec fn at_least(a: int, b: int) -> int {
    if a < b {
        b
    } else {
        a
    }
}

/// The smaller of two numbers.
pub open spec fn at_most(a: int, b: int) -> int {
    if a > b {
        b
    } else {
        a
    }
}

/// A character as it stands in text.
pub open spec fn escaped_char(c: char) -> Seq<char> {
    if c == '&' {
        "&amp;"@
    } else if c == '<' {
        "&lt;"@
    } else if c == '>' {
        "&gt;"@
    } else if c == '\u{a0}' {
        "&nbsp;"@
    } else {
        seq![c]
    }
}

/// A text as it stands in a page.
pub open spec fn escaped_text(s: Seq<char>) -> Seq<char>
    decreases s.len(),
{
    if s.len() == 0 {
        Seq::empty()
    } else {
        escaped_text(s.drop_last()) + escaped_char(s.last())
    }
}

/// A text as it stands in an attribute of a page.
pub open spec fn escaped_value(s: Seq<char>) -> Seq<char>
    decreases s.len(),
{
    if s.len() == 0 {
        Seq::empty()
    } else {
        escaped_value(s.drop_last()) + (if s.last() == '"' {
            "&quot;"@
        } else {
            escaped_char(s.last())
        })
    }
}

/// A piece of a text as it is written.
pub open spec fn written_piece(p: TextPiece) -> Seq<char> {
    match p {
        TextPiece::Plain(s) => escaped_text(s),
        TextPiece::Span(class, id, s) => "<span class=\"editor-token token-editor-"@
            + escaped_value(class) + "\" id=\"token-"@ + decimal(id as nat) + "\">"@ + escaped_text(
            s,
        ) + "</span>"@,
    }
}

/// The pieces of a text as they are written.
pub open spec fn written_pieces(ps: Seq<TextPiece>) -> Seq<char>
    decreases ps.len(),
{
    if ps.len() == 0 {
        Seq::empty()
    } else {
        written_piece(ps[0]) + written_pieces(ps.drop_first())
    }
}

/// The attributes of a tag, from the `k`th on, as they are written.
pub open spec fn written_attributes(v: Seq<(Seq<char>, Seq<char>)>, k: int) -> Seq<char>
    decreases v.len() - k,
{
    if k < 0 || k >= v.len() {
        Seq::empty()
    } else {
        " "@ + v[k].0 + "=\""@ + escaped_value(v[k].1) + "\""@ + written_attributes(v, k + 1)
    }
}

/// The text that is searched: that of the parts from the `k`th on that is not left
/// out.
pub open spec fn searched_text(es: Seq<EventView>, k: int) -> Seq<char>
    decreases es.len() - k,
{
    if k < 0 || k >= es.len() {
        Seq::empty()
    } else {
        match es[k] {
            EventView::Text(s, false) => s + searched_text(es, k + 1),
            _ => searched_text(es, k + 1),
        }
    }
}

/// The parts from the `k`th on as they are written. `pos` is how much of the text
/// that is searched came before, `m` the first match not yet put out.
pub open spec fn written_events(
    es: Seq<EventView>,
    ms: Seq<MatchView>,
    k: int,
    pos: int,
    m: int,
) -> Seq<char>
    decreases es.len() - k,
{
    if k < 0 || k >= es.len() {
        Seq::empty()
    } else {
        match es[k] {
            EventView::Text(s, true) => escaped_text(s) + written_events(es, ms, k + 1, pos, m),
            EventView::Text(s, false) => written_pieces(text_pieces(s, pos, ms, m, 0))
                + written_events(es, ms, k + 1, pos + s.len(), next_match(pos + s.len(), ms, m)),
            EventView::OpenTag(tag, attrs) => "<"@ + tag + written_attributes(attrs, 0) + ">"@
                + written_events(es, ms, k + 1, pos, m),
            EventView::CloseTag(tag) => "</"@ + tag + ">"@ + written_events(es, ms, k + 1, pos, m),
            EventView::Doctype(name) => "<!DOCTYPE "@ + name + ">"@ + written_events(
                es,
                ms,
                k + 1,
                pos,
                m,
            ),
            EventView::Comment(s) => "<!--"@ + s + "-->"@ + written_events(es, ms, k + 1, pos, m),
        }
    }
}

/// The page with spans, and the editors found in it.
pub open spec fn annotated(es: Seq<EventView>, tokens: Seq<SoughtView>) -> HtmlInjectionView {
    let found = matched(
        searched_text(es, 0),
        tokens,
        0,
        0,
        FoundView { matches: Seq::empty(), editors: Seq::empty() },
    );
    HtmlInjectionView {
        html: written_events(es, found.matches, 0, 0, 0),
        present_editors: ranked_editors(found.editors, tokens),
    }
}

/// Each match begins where the one before it ends or later, and lies in the text.
pub open spec fn matches_ok(ms: Seq<MatchView>, len: int) -> bool {
    &&& forall|i: int|
        0 <= i < ms.len() ==> 0 <= (#[trigger] ms[i]).start && ms[i].start < ms[i].end && ms[i].end
            <= len
    &&& forall|i: int, k: int| 0 <= i < k < ms.len() ==> ms[i].end <= ms[k].start
}

proof fn lemma_gathered(hay: Seq<char>, bytes: int, i: int, buf: Seq<char>)
    requires
        0 <= i <= hay.len(),
    ensures
        i <= gathered(hay, bytes, i, buf).1 <= hay.len(),
        i < hay.len() ==> i < gathered(hay, bytes, i, buf).1,
    decreases hay.len() - i,
{
    if i < hay.len() {
        lemma_gathered(hay, bytes, i + 1, buf + lowered_char(hay[i]));
    }
}

proof fn lemma_lowered_match(hay: Seq<char>, low: Seq<char>, i: int)
    requires
        0 <= i,
    ensures
        match lowered_match(hay, low, i) {
            Some((start, end)) => i <= start < end <= hay.len(),
            None => true,
        },
    decreases hay.len() - i,
{
    if i < hay.len() {
        lemma_gathered(hay, text_bytes(low), i, Seq::empty());
        lemma_lowered_match(hay, low, i + 1);
    }
}

proof fn lemma_matched(
    text: Seq<char>,
    tokens: Seq<SoughtView>,
    k: int,
    cursor: int,
    so_far: FoundView,
)
    requires
        0 <= k,
        0 <= cursor <= text.len(),
        matches_ok(so_far.matches, text.len() as int),
        so_far.matches.len() > 0 ==> so_far.matches.last().end == cursor,
    ensures
        matches_ok(matched(text, tokens, k, cursor, so_far).matches, text.len() as int),
    decreases tokens.len() - k,
{
    if k < tokens.len() {
        let t = tokens[k];
        lemma_lowered_match(text, lowercase(t.str), cursor);
        let at = if t.str.len() == 0 {
            None
        } else {
            lowered_match(text, lowercase(t.str), cursor)
        };
        match at {
            Some((start, end)) => {
                let more = FoundView {
                    matches: so_far.matches.push(
                        MatchView { start, end, class_name: t.class_name },
                    ),
                    editors: editor_counted(so_far.editors, t),
                };
                assert forall|i: int, m: int|
                    0 <= i < m < more.matches.len() implies more.matches[i].end
                    <= more.matches[m].start by {
                    if m == so_far.matches.len() && i < so_far.matches.len() - 1 {
                        assert(so_far.matches[i].end <= so_far.matches.last().start);
                    }
                }
                lemma_matched(text, tokens, k + 1, end, more);
            },
            None => {
                lemma_matched(text, tokens, k + 1, cursor, so_far);
            },
        }
    }
}

/// The text of the pieces.
pub open spec fn pieces_text(ps: Seq<TextPiece>) -> Seq<char>
    decreases ps.len(),
{
    if ps.len() == 0 {
        Seq::empty()
    } else {
        (match ps[0] {
            TextPiece::Plain(s) => s,
            TextPiece::Span(_, _, s) => s,
        }) + pieces_text(ps.drop_first())
    }
}

proof fn lemma_pieces_text(a: Seq<TextPiece>, b: Seq<TextPiece>)
    ensures
        pieces_text(a + b) == pieces_text(a) + pieces_text(b),
    decreases a.len(),
{
    if a.len() == 0 {
        assert(a + b =~= b);
        assert(pieces_text(a) + pieces_text(b) =~= pieces_text(b));
    } else {
        assert((a + b).drop_first() =~= a.drop_first() + b);
        lemma_pieces_text(a.drop_first(), b);
        assert(pieces_text(a + b) =~= pieces_text(a) + pieces_text(b));
    }
}

proof fn lemma_text_pieces(
    contents: Seq<char>,
    start: int,
    ms: Seq<MatchView>,
    len: int,
    m: int,
    local: int,
)
    requires
        matches_ok(ms, len),
        0 <= m,
        0 <= local <= contents.len(),
        0 <= start,
        forall|i: int|
            m <= i < ms.len() && (#[trigger] ms[i]).end > start ==> at_least(
                ms[i].start - start,
                0,
            ) >= local || ms[i].start >= start + contents.len(),
    ensures
        pieces_text(text_pieces(contents, start, ms, m, local)) == contents.subrange(
            local,
            contents.len() as int,
        ),
    decreases ms.len() - m,
{
    let n = contents.len() as int;
    let end = start + n;
    reveal_with_fuel(pieces_text, 2);
    if m >= ms.len() || ms[m].start >= end {
        let p = plain_piece(contents, local, n);
        assert(p.len() > 0 ==> p.drop_first() =~= Seq::empty());
        assert(pieces_text(p) =~= contents.subrange(local, n));
    } else if ms[m].end <= start {
        lemma_text_pieces(contents, start, ms, len, m + 1, local);
    } else {
        let from = at_least(ms[m].start - start, 0);
        let to = at_most(at_least(ms[m].end - start, 0), n);
        let a = plain_piece(contents, local, from);
        let b = seq![TextPiece::Span(ms[m].class_name, m, contents.subrange(from, to))];
        let c = text_pieces(contents, start, ms, m + 1, to);
        assert forall|i: int|
            m + 1 <= i < ms.len() && (#[trigger] ms[i]).end > start implies at_least(
            ms[i].start - start,
            0,
        ) >= to || ms[i].start >= end by {
            assert(ms[m].end <= ms[i].start);
        }
        if m + 1 < ms.len() {
            assert(ms[m].end <= ms[m + 1].start);
        }
        lemma_text_pieces(contents, start, ms, len, m + 1, to);
        lemma_pieces_text(a + b, c);
        lemma_pieces_text(a, b);
        assert(a.len() > 0 ==> a.drop_first() =~= Seq::empty());
        assert(b.drop_first() =~= Seq::empty());
        assert(pieces_text(a) =~= contents.subrange(local, from));
        assert(pieces_text(b) =~= contents.subrange(from, to));
        assert(pieces_text(a + b + c) =~= contents.subrange(local, n));
    }
}

/// Marking changes nothing of a text of the page: the text of its pieces is the
/// text.
pub proof fn annotating_keeps_text(
    contents: Seq<char>,
    start: int,
    ms: Seq<MatchView>,
    len: int,
    m: int,
)
    requires
        matches_ok(ms, len),
        0 <= start,
        0 <= m,
    ensures
        pieces_text(text_pieces(contents, start, ms, m, 0)) == contents,
{
    lemma_text_pieces(contents, start, ms, len, m, 0);
    assert(contents.subrange(0, contents.len() as int) =~= contents);
}

/// Whether what is in the element is left out of the search.
fn is_skip_element(tag: &str) -> (r: bool)
    ensures
        r == is_skipped(tag@),
{
    same_text(tag, "script") || same_text(tag, "style") || same_text(tag, "head") || same_text(
        tag,
        "noscript",
    ) || same_text(tag, "template")
}

/// Whether the element has no end tag.
fn is_void_element(tag: &str) -> (r: bool)
    ensures
        r == is_void(tag@),
{
    same_text(tag, "area") || same_text(tag, "base") || same_text(tag, "br") || same_text(tag, "col")
        || same_text(tag, "embed") || same_text(tag, "hr") || same_text(tag, "img") || same_text(
        tag,
        "input",
    ) || same_text(tag, "link") || same_text(tag, "meta") || same_text(tag, "param") || same_text(
        tag,
        "source",
    ) || same_text(tag, "track") || same_text(tag, "wbr")
}

/// The name of an attribute as it is written.
fn format_attr_name(a: &HtmlAttribute) -> (r: String)
    ensures
        r@ == attribute_name(a@),
{
    match &a.prefix {
        Some(p) => {
            let head = concat_text(p.as_str(), ":");
            concat_text(head.as_str(), a.local.as_str())
        },
        None => a.local.clone(),
    }
}

/// The names and values of attributes as they are written.
fn format_attrs(v: &Vec<HtmlAttribute>) -> (r: Vec<(String, String)>)
    ensures
        pairs(r@) == attribute_pairs(attributes(v@)),
{
    let mut out: Vec<(String, String)> = Vec::new();
    let mut i: usize = 0;
    while i < v.len()
        invariant
            i <= v@.len(),
            out@.len() == i,
            forall|k: int|
                0 <= k < i ==> (#[trigger] out@[k]).0@ == attribute_name(v@[k]@) && out@[k].1@
                    == v@[k].value@,
        decreases v@.len() - i,
    {
        let name = format_attr_name(&v[i]);
        out.push((name, v[i].value.clone()));
        i = i + 1;
    }
    proof {
        assert(pairs(out@) =~= attribute_pairs(attributes(v@)));
    }
    out
}

/// What several nodes stand for.
pub open spec fn trees(v: Seq<HtmlNode>) -> Seq<HtmlTree> {
    v.map_values(|n: HtmlNode| n@)
}

proof fn lemma_trees(n: HtmlNode)
    ensures
        n matches HtmlNode::Document(v) ==> n@ == HtmlTree::Document(trees(v@)),
        n matches HtmlNode::Element(name, attrs, v) ==> n@ == HtmlTree::Element(
            name@,
            attributes(attrs@),
            trees(v@),
        ),
{
    match n {
        HtmlNode::Document(v) => {
            let t = match n@ {
                HtmlTree::Document(t) => t,
                _ => Seq::empty(),
            };
            assert(t =~= trees(v@));
        },
        HtmlNode::Element(_, _, v) => {
            let t = match n@ {
                HtmlTree::Element(_, _, t) => t,
                _ => Seq::empty(),
            };
            assert(t =~= trees(v@));
        },
        _ => {},
    }
}

/// Appends the parts of several nodes.
fn flatten_nodes(nodes: &Vec<HtmlNode>, events: &mut Vec<HtmlEvent>, inside_skip: bool)
    ensures
        event_views(final(events)@) == event_views(old(events)@) + flattened_from(
            trees(nodes@),
            0,
            inside_skip,
        ),
    decreases nodes, 0int,
{
    let ghost ts = trees(nodes@);
    let ghost goal = event_views(events@) + flattened_from(ts, 0, inside_skip);
    let mut i: usize = 0;
    while i < nodes.len()
        invariant
            i <= nodes@.len(),
            ts == trees(nodes@),
            event_views(events@) + flattened_from(ts, i as int, inside_skip) == goal,
        decreases nodes@.len() - i,
    {
        let ghost before = event_views(events@);
        let ghost rest = flattened_from(ts, i + 1, inside_skip);
        flatten_into_events(&nodes[i], events, inside_skip);
        proof {
            assert(ts[i as int] == nodes@[i as int]@);
            assert(before + (flattened(ts[i as int], inside_skip) + rest) =~= event_views(events@)
                + rest);
        }
        i = i + 1;
    }
    proof {
        assert(event_views(events@) =~= goal);
    }
}

/// Appends the parts of a page. `inside_skip` is whether its text is left out of the
/// search.
pub fn flatten_into_events(node: &HtmlNode, events: &mut Vec<HtmlEvent>, inside_skip: bool)
    ensures
        event_views(final(events)@) == event_views(old(events)@) + flattened(node@, inside_skip),
    decreases node, 1int,
{
    let ghost before = event_views(events@);
    proof {
        lemma_trees(*node);
    }
    match node {
        HtmlNode::Document(v) => {
            flatten_nodes(v, events, inside_skip);
        },
        HtmlNode::Doctype(s) => {
            push_event(events, HtmlEvent::Doctype(s.clone()));
        },
        HtmlNode::Text(s) => {
            push_event(events, HtmlEvent::Text(s.clone(), inside_skip));
        },
        HtmlNode::Comment(s) => {
            push_event(events, HtmlEvent::Comment(s.clone()));
        },
        HtmlNode::Instruction => {
            proof {
                assert(before + Seq::<EventView>::empty() =~= before);
            }
        },
        HtmlNode::Element(name, attrs, v) => {
            push_event(events, HtmlEvent::OpenTag(name.clone(), format_attrs(attrs)));
            if !is_void_element(name.as_str()) {
                let skip = inside_skip || is_skip_element(name.as_str());
                flatten_nodes(v, events, skip);
                push_event(events, HtmlEvent::CloseTag(name.clone()));
                proof {
                    assert(event_views(events@) =~= before + flattened(node@, inside_skip));
                }
            }
        },
    }
}

/// Appends a part.
fn push_event(events: &mut Vec<HtmlEvent>, e: HtmlEvent)
    ensures
        event_views(final(events)@) == event_views(old(events)@) + seq![e@],
{
    let ghost before = event_views(events@);
    events.push(e);
    proof {
        assert(event_views(events@) =~= before + seq![e@]);
    }
}

/// A token found.
pub struct Match {
    pub start: usize,
    pub end: usize,
    pub class_name: String,
}

impl View for Match {
    type V = MatchView;

    open spec fn view(&self) -> MatchView {
        MatchView {
            start: self.start as int,
            end: self.end as int,
            class_name: self.class_name@,
        }
    }
}

/// The models of several matches.
pub open spec fn match_views(v: Seq<Match>) -> Seq<MatchView> {
    v.map_values(|m: Match| m@)
}

/// The first stretch from `from` on whose lowercase form begins with that of the
/// needle.
fn find_case_insensitive(haystack: &Vec<char>, needle: &str, from: usize) -> (r: Option<
    (usize, usize),
>)
    requires
        from <= haystack@.len(),
    ensures
        match r {
            Some((start, end)) => lowered_match(haystack@, lowercase(needle@), from as int) == Some(
                (start as int, end as int),
            ) && start <= end <= haystack@.len(),
            None => lowered_match(haystack@, lowercase(needle@), from as int) is None,
        },
{
    let low = to_lowercase(needle);
    let low_chars = chars_of(low.as_str());
    let bytes: u128 = count_bytes(low.as_str());
    let n: usize = haystack.len();
    let mut start: usize = from;
    while start < n
        invariant
            n == haystack@.len(),
            from <= start <= n,
            low@ == lowercase(needle@),
            low_chars@ == low@,
            bytes == text_bytes(low@),
            lowered_match(haystack@, low@, start as int) == lowered_match(
                haystack@,
                low@,
                from as int,
            ),
        decreases n - start,
    {
        let mut buf: Vec<char> = Vec::new();
        let mut end: usize = start;
        let mut go: bool = true;
        let ghost goal = gathered(haystack@, bytes as int, start as int, Seq::empty());
        while go && end < n
            invariant
                n == haystack@.len(),
                start <= end <= n,
                goal == (if go {
                    gathered(haystack@, bytes as int, end as int, buf@)
                } else {
                    (buf@, end as int)
                }),
            decreases
                    n - end + (if go {
                        1int
                    } else {
                        0
                    }),
        {
            let form = lower_char(haystack[end]);
            push_all(&mut buf, chars_of(form.as_str()).as_slice());
            if count_bytes(string_from(&buf).as_str()) >= bytes {
                go = false;
            }
            end = end + 1;
        }
        if begins_with(&buf, &low_chars) {
            return Some((start, end));
        }
        start = start + 1;
    }
    None
}

/// The place of an editor among those found.
fn find_editor(es: &Vec<PresentEditorEntry>, editor: &str) -> (r: usize)
    ensures
        r == editor_place(present(es@), editor@, 0),
        r <= es@.len(),
{
    let ghost all = present(es@);
    let mut k: usize = 0;
    while k < es.len()
        invariant
            k <= es@.len(),
            all == present(es@),
            editor_place(all, editor@, k as int) == editor_place(all, editor@, 0),
        decreases es@.len() - k,
    {
        proof {
            assert(all[k as int] == es@[k as int]@);
        }
        if same_text(es[k].editor.as_str(), editor) {
            return k;
        }
        k = k + 1;
    }
    k
}

/// No editor has more than `n` tokens.
spec fn at_most_each(es: Seq<PresentView>, n: int) -> bool {
    forall|i: int| 0 <= i < es.len() ==> (#[trigger] es[i]).token_count <= n
}

/// Counts a token for its editor.
fn count_editor(es: &mut Vec<PresentEditorEntry>, t: &InjectionToken, Ghost(n): Ghost<int>)
    requires
        at_most_each(present(old(es)@), n),
        0 <= n < usize::MAX,
    ensures
        present(final(es)@) == editor_counted(present(old(es)@), t@),
        at_most_each(present(final(es)@), n + 1),
{
    let ghost all = present(es@);
    let k = find_editor(es, t.editor.as_str());
    if k < es.len() {
        proof {
            assert(all[k as int] == es@[k as int]@);
        }
        let count: usize = es[k].token_count;
        let e = &mut es[k];
        e.token_count = count + 1;
    } else {
        es.push(
            PresentEditorEntry {
                editor: t.editor.clone(),
                class_name: t.class_name.clone(),
                token_count: 1,
            },
        );
    }
    proof {
        assert(present(es@) =~= editor_counted(all, t@));
    }
}

/// Finds the tokens in the text one after the other, and the editors of those found.
pub fn compute_matches(flat_text: &Vec<char>, tokens: &[InjectionToken]) -> (r: (
    Vec<Match>,
    Vec<PresentEditorEntry>,
))
    ensures
        ({
            let found = matched(
                flat_text@,
                wanted(tokens@),
                0,
                0,
                FoundView { matches: Seq::empty(), editors: Seq::empty() },
            );
            &&& match_views(r.0@) == found.matches
            &&& present(r.1@) == ranked_editors(found.editors, wanted(tokens@))
            &&& matches_ok(found.matches, flat_text@.len() as int)
        }),
{
    let ghost ts = wanted(tokens@);
    let ghost none = FoundView { matches: Seq::empty(), editors: Seq::empty() };
    let ghost goal = matched(flat_text@, ts, 0, 0, none);
    let n: usize = tokens.len();
    let mut matches: Vec<Match> = Vec::new();
    let mut editors: Vec<PresentEditorEntry> = Vec::new();
    let mut cursor: usize = 0;
    let mut k: usize = 0;
    proof {
        assert(match_views(matches@) =~= none.matches);
        assert(present(editors@) =~= none.editors);
    }
    while k < n
        invariant
            n == tokens@.len(),
            ts == wanted(tokens@),
            k <= n,
            cursor <= flat_text@.len(),
            at_most_each(present(editors@), k as int),
            matched(
                flat_text@,
                ts,
                k as int,
                cursor as int,
                FoundView { matches: match_views(matches@), editors: present(editors@) },
            ) == goal,
        decreases n - k,
    {
        let t = &tokens[k];
        proof {
            assert(ts[k as int] == t@);
        }
        if !t.str.as_str().is_empty() {
            if let Some((start, end)) = find_case_insensitive(flat_text, t.str.as_str(), cursor) {
                let ghost before = match_views(matches@);
                matches.push(Match { start, end, class_name: t.class_name.clone() });
                proof {
                    assert(match_views(matches@) =~= before.push(
                        MatchView {
                            start: start as int,
                            end: end as int,
                            class_name: t.class_name@,
                        },
                    ));
                }
                count_editor(&mut editors, t, Ghost(k as int));
                cursor = end;
            }
        }
        k = k + 1;
    }
    proof {
        lemma_matched(flat_text@, ts, 0, 0, none);
    }
    let ordered = order_editors(&editors, tokens);
    let r = rank_editors(&ordered);
    (matches, r)
}

/// The place of the first token of an editor.
fn find_first_token(tokens: &[InjectionToken], editor: &str) -> (r: usize)
    ensures
        r == first_of_editor(wanted(tokens@), editor@, 0),
{
    let ghost ts = wanted(tokens@);
    let mut k: usize = 0;
    while k < tokens.len()
        invariant
            k <= tokens@.len(),
            ts == wanted(tokens@),
            first_of_editor(ts, editor@, k as int) == first_of_editor(ts, editor@, 0),
        decreases tokens@.len() - k,
    {
        proof {
            assert(ts[k as int] == tokens@[k as int]@);
        }
        if same_text(tokens[k].editor.as_str(), editor) {
            return k;
        }
        k = k + 1;
    }
    k
}

/// The editors found, in the order of their first tokens.
fn order_editors(editors: &Vec<PresentEditorEntry>, tokens: &[InjectionToken]) -> (r: Vec<
    PresentEditorEntry,
>)
    ensures
        present(r@) == in_token_order(present(editors@), wanted(tokens@), 0),
{
    let ghost es = present(editors@);
    let ghost ts = wanted(tokens@);
    let ghost goal = in_token_order(es, ts, 0);
    let mut out: Vec<PresentEditorEntry> = Vec::new();
    let mut k: usize = 0;
    proof {
        assert(present(out@) + goal =~= goal);
    }
    while k < tokens.len()
        invariant
            k <= tokens@.len(),
            es == present(editors@),
            ts == wanted(tokens@),
            present(out@) + in_token_order(es, ts, k as int) == goal,
        decreases tokens@.len() - k,
    {
        let ghost before = present(out@);
        let ghost rest = in_token_order(es, ts, k + 1);
        proof {
            assert(ts[k as int] == tokens@[k as int]@);
        }
        let at = find_editor(editors, tokens[k].editor.as_str());
        if at < editors.len() && find_first_token(tokens, tokens[k].editor.as_str()) == k {
            let e = &editors[at];
            out.push(
                PresentEditorEntry {
                    editor: e.editor.clone(),
                    class_name: e.class_name.clone(),
                    token_count: e.token_count,
                },
            );
            proof {
                assert(es[at as int] == e@);
                assert(present(out@) =~= before.push(es[at as int]));
                assert(present(out@) + rest =~= before + (seq![es[at as int]] + rest));
            }
        }
        k = k + 1;
    }
    proof {
        assert(present(out@) =~= goal);
    }
    out
}

/// Appends a text as it stands in a page.
fn push_escaped_text(s: &[char], from: usize, to: usize, out: &mut Vec<char>)
    requires
        from <= to <= s@.len(),
    ensures
        final(out)@ == old(out)@ + escaped_text(s@.subrange(from as int, to as int)),
{
    let ghost start = out@;
    let ghost all = s@.subrange(from as int, to as int);
    let mut i: usize = from;
    proof {
        assert(out@ =~= start + escaped_text(all.take(0)));
    }
    while i < to
        invariant
            from <= i <= to <= s@.len(),
            all == s@.subrange(from as int, to as int),
            out@ == start + escaped_text(all.take(i - from)),
        decreases to - i,
    {
        push_escaped_char(s[i], out);
        proof {
            assert(all.take(i - from + 1).drop_last() =~= all.take(i - from));
            assert(all.take(i - from + 1).last() == s@[i as int]);
            assert(out@ =~= start + escaped_text(all.take(i - from + 1)));
        }
        i = i + 1;
    }
    proof {
        assert(all.take(all.len() as int) =~= all);
    }
}

/// Appends a character as it stands in text.
fn push_escaped_char(c: char, out: &mut Vec<char>)
    ensures
        final(out)@ == old(out)@ + escaped_char(c),
{
    let ghost before = out@;
    if c == '&' {
        push_str(out, "&amp;");
    } else if c == '<' {
        push_str(out, "&lt;");
    } else if c == '>' {
        push_str(out, "&gt;");
    } else if c == '\u{a0}' {
        push_str(out, "&nbsp;");
    } else {
        out.push(c);
        proof {
            assert(out@ =~= before + seq![c]);
        }
    }
}

/// Appends a text as it stands in an attribute.
fn push_escaped_attr(text: &str, out: &mut Vec<char>)
    ensures
        final(out)@ == old(out)@ + escaped_value(text@),
{
    let c = chars_of(text);
    let ghost start = out@;
    let mut i: usize = 0;
    proof {
        assert(out@ =~= start + escaped_value(c@.take(0)));
    }
    while i < c.len()
        invariant
            i <= c@.len(),
            out@ == start + escaped_value(c@.take(i as int)),
        decreases c@.len() - i,
    {
        if c[i] == '"' {
            push_str(out, "&quot;");
        } else {
            push_escaped_char(c[i], out);
        }
        proof {
            assert(c@.take(i + 1).drop_last() =~= c@.take(i as int));
            assert(c@.take(i + 1).last() == c@[i as int]);
            assert(out@ =~= start + escaped_value(c@.take(i + 1)));
        }
        i = i + 1;
    }
    proof {
        assert(c@.take(c@.len() as int) =~= text@);
    }
}

proof fn lemma_written(a: Seq<TextPiece>, b: Seq<TextPiece>)
    ensures
        written_pieces(a + b) == written_pieces(a) + written_pieces(b),
    decreases a.len(),
{
    if a.len() == 0 {
        assert(a + b =~= b);
        assert(written_pieces(a) + written_pieces(b) =~= written_pieces(b));
    } else {
        assert((a + b).drop_first() =~= a.drop_first() + b);
        lemma_written(a.drop_first(), b);
        assert(written_pieces(a + b) =~= written_pieces(a) + written_pieces(b));
    }
}

proof fn lemma_written_one(p: TextPiece)
    ensures
        written_pieces(seq![p]) == written_piece(p),
{
    reveal_with_fuel(written_pieces, 2);
    assert(seq![p].drop_first() =~= Seq::empty());
    assert(written_piece(p) + Seq::<char>::empty() =~= written_piece(p));
}

/// Appends a token in its span.
fn push_span(
    class_name: &str,
    id: usize,
    contents: &Vec<char>,
    from: usize,
    to: usize,
    out: &mut Vec<char>,
)
    requires
        from <= to <= contents@.len(),
    ensures
        final(out)@ == old(out)@ + written_piece(
            TextPiece::Span(class_name@, id as int, contents@.subrange(from as int, to as int)),
        ),
{
    let ghost before = out@;
    push_str(out, "<span class=\"editor-token token-editor-");
    push_escaped_attr(class_name, out);
    push_str(out, "\" id=\"token-");
    push_str(out, decimal_text(id as u64).as_str());
    push_str(out, "\">");
    push_escaped_text(contents.as_slice(), from, to, out);
    push_str(out, "</span>");
    proof {
        assert(out@ =~= before + written_piece(
            TextPiece::Span(class_name@, id as int, contents@.subrange(from as int, to as int)),
        ));
    }
}

/// Appends a text with the tokens found in it in their spans, and moves on to the
/// first match after it.
fn emit_text_slice(
    contents: &Vec<char>,
    event_start: usize,
    matches: &Vec<Match>,
    Ghost(len): Ghost<int>,
    first: usize,
    out: &mut Vec<char>,
) -> (r: usize)
    requires
        matches_ok(match_views(matches@), len),
        event_start + contents@.len() <= usize::MAX,
        first <= matches@.len(),
    ensures
        final(out)@ == old(out)@ + written_pieces(
            text_pieces(
                contents@,
                event_start as int,
                match_views(matches@),
                first as int,
                0,
            ),
        ),
        r == next_match(event_start + contents@.len(), match_views(matches@), first as int),
        r <= matches@.len(),
{
    let ghost ms = match_views(matches@);
    let ghost text = contents@;
    let ghost at = event_start as int;
    let ghost start_out = out@;
    let ghost goal = written_pieces(text_pieces(text, at, ms, first as int, 0));
    let n: usize = contents.len();
    let event_end: usize = event_start + n;
    let mut local: usize = 0;
    let mut m: usize = first;
    proof {
        assert(out@ + goal =~= start_out + goal);
    }
    while m < matches.len() && matches[m].start < event_end
        invariant
            ms == match_views(matches@),
            matches_ok(ms, len),
            text == contents@,
            at == event_start,
            n == contents@.len(),
            event_end == event_start + n,
            first <= m <= matches@.len(),
            local <= n,
            forall|i: int|
                m <= i < ms.len() && (#[trigger] ms[i]).end > at ==> at_least(ms[i].start - at, 0)
                    >= local,
            out@ + written_pieces(text_pieces(text, at, ms, m as int, local as int)) == start_out
                + goal,
            next_match(event_end as int, ms, m as int) == next_match(
                event_end as int,
                ms,
                first as int,
            ),
        decreases matches@.len() - m,
    {
        proof {
            assert(ms[m as int] == matches@[m as int]@);
        }
        let found = &matches[m];
        if found.end > event_start {
            let from: usize = if found.start > event_start {
                found.start - event_start
            } else {
                0
            };
            let to: usize = if found.end - event_start < n {
                found.end - event_start
            } else {
                n
            };
            let ghost rest = text_pieces(text, at, ms, m + 1, to as int);
            let ghost span = TextPiece::Span(
                found.class_name@,
                m as int,
                text.subrange(from as int, to as int),
            );
            let ghost before = plain_piece(text, local as int, from as int);
            let ghost old_out = out@;
            proof {
                lemma_written(before + seq![span], rest);
                lemma_written(before, seq![span]);
                lemma_written_one(span);
                if local < from {
                    lemma_written_one(TextPiece::Plain(text.subrange(local as int, from as int)));
                }
            }
            if local < from {
                push_escaped_text(contents.as_slice(), local, from, out);
            }
            proof {
                assert(out@ =~= old_out + written_pieces(before));
            }
            push_span(found.class_name.as_str(), m, contents, from, to, out);
            proof {
                assert(out@ =~= old_out + written_pieces(before) + written_piece(span));
                assert(out@ + written_pieces(rest) =~= old_out + (written_pieces(before)
                    + written_piece(span) + written_pieces(rest)));
                assert forall|i: int|
                    m + 1 <= i < ms.len() && (#[trigger] ms[i]).end > at implies at_least(
                    ms[i].start - at,
                    0,
                ) >= to by {
                    assert(ms[m as int].end <= ms[i].start);
                }
            }
            local = to;
        }
        m = m + 1;
    }
    proof {
        if m < matches@.len() {
            assert(ms[m as int] == matches@[m as int]@);
        }
    }
    if local < n {
        proof {
            lemma_written_one(TextPiece::Plain(text.subrange(local as int, n as int)));
        }
        push_escaped_text(contents.as_slice(), local, n, out);
    }
    proof {
        assert(out@ =~= start_out + goal);
    }
    m
}

/// The text that is searched.
fn flat_text(events: &Vec<HtmlEvent>) -> (r: Vec<char>)
    ensures
        r@ == searched_text(event_views(events@), 0),
{
    let ghost es = event_views(events@);
    let ghost goal = searched_text(es, 0);
    let mut out: Vec<char> = Vec::new();
    let mut k: usize = 0;
    proof {
        assert(out@ + goal =~= goal);
    }
    while k < events.len()
        invariant
            k <= events@.len(),
            es == event_views(events@),
            out@ + searched_text(es, k as int) == goal,
        decreases events@.len() - k,
    {
        proof {
            assert(es[k as int] == events@[k as int]@);
        }
        let ghost rest = searched_text(es, k + 1);
        let ghost before = out@;
        if let HtmlEvent::Text(contents, skip) = &events[k] {
            if !*skip {
                push_all(&mut out, chars_of(contents.as_str()).as_slice());
                proof {
                    assert(out@ + rest =~= before + (contents@ + rest));
                }
            }
        }
        k = k + 1;
    }
    proof {
        assert(out@ =~= goal);
    }
    out
}

/// Appends the attributes of a tag.
fn push_attributes(attrs: &Vec<(String, String)>, out: &mut Vec<char>)
    ensures
        final(out)@ == old(out)@ + written_attributes(pairs(attrs@), 0),
{
    let ghost ps = pairs(attrs@);
    let ghost goal = out@ + written_attributes(ps, 0);
    let mut k: usize = 0;
    while k < attrs.len()
        invariant
            k <= attrs@.len(),
            ps == pairs(attrs@),
            out@ + written_attributes(ps, k as int) == goal,
        decreases attrs@.len() - k,
    {
        let ghost before = out@;
        let ghost rest = written_attributes(ps, k + 1);
        push_str(out, " ");
        push_str(out, attrs[k].0.as_str());
        push_str(out, "=\"");
        push_escaped_attr(attrs[k].1.as_str(), out);
        push_str(out, "\"");
        proof {
            assert(ps[k as int] == (attrs@[k as int].0@, attrs@[k as int].1@));
            assert(out@ + rest =~= before + (" "@ + ps[k as int].0 + "=\""@ + escaped_value(
                ps[k as int].1,
            ) + "\""@ + rest));
        }
        k = k + 1;
    }
    proof {
        assert(out@ =~= goal);
    }
}

/// Appends a part that is no text to be searched.
fn push_markup(event: &HtmlEvent, out: &mut Vec<char>)
    requires
        !(event@ matches EventView::Text(_, skip) && !skip),
    ensures
        final(out)@ == old(out)@ + written_events(seq![event@], Seq::empty(), 0, 0, 0),
{
    let ghost before = out@;
    let ghost none: Seq<MatchView> = Seq::empty();
    proof {
        assert(written_events(seq![event@], none, 1, 0, 0) =~= Seq::empty());
    }
    match event {
        HtmlEvent::Text(contents, _) => {
            let c = chars_of(contents.as_str());
            push_escaped_text(c.as_slice(), 0, c.len(), out);
            proof {
                assert(c@.subrange(0, c@.len() as int) =~= contents@);
            }
        },
        HtmlEvent::OpenTag(tag, attrs) => {
            push_str(out, "<");
            push_str(out, tag.as_str());
            push_attributes(attrs, out);
            push_str(out, ">");
        },
        HtmlEvent::CloseTag(tag) => {
            push_str(out, "</");
            push_str(out, tag.as_str());
            push_str(out, ">");
        },
        HtmlEvent::Doctype(name) => {
            push_str(out, "<!DOCTYPE ");
            push_str(out, name.as_str());
            push_str(out, ">");
        },
        HtmlEvent::Comment(contents) => {
            push_str(out, "<!--");
            push_str(out, contents.as_str());
            push_str(out, "-->");
        },
    }
    proof {
        assert(out@ =~= before + written_events(seq![event@], none, 0, 0, 0));
    }
}

/// A part that is no text to be searched is written the same wherever it stands.
proof fn lemma_markup_alone(es: Seq<EventView>, ms: Seq<MatchView>, k: int, pos: int, m: int)
    requires
        0 <= k < es.len(),
        !(es[k] matches EventView::Text(_, skip) && !skip),
    ensures
        written_events(es, ms, k, pos, m) == written_events(seq![es[k]], Seq::empty(), 0, 0, 0)
            + written_events(es, ms, k + 1, pos, m),
{
    let one = seq![es[k]];
    let none: Seq<MatchView> = Seq::empty();
    assert(one[0] == es[k]);
    assert(written_events(one, none, 1, 0, 0) =~= Seq::empty());
    assert(written_events(es, ms, k, pos, m) =~= written_events(one, none, 0, 0, 0)
        + written_events(es, ms, k + 1, pos, m));
}

/// Puts a page together again from its parts, with a span around each token found.
pub fn annotate_events(events: &Vec<HtmlEvent>, tokens: &[InjectionToken]) -> (r: InjectionResult)
    ensures
        r@ == annotated(event_views(events@), wanted(tokens@)),
{
    let ghost es = event_views(events@);
    let flat = flat_text(events);
    let (matches, present_editors) = compute_matches(&flat, tokens);
    let ghost ms = match_views(matches@);
    let ghost len = flat@.len() as int;
    let ghost goal = written_events(es, ms, 0, 0, 0);
    let total: usize = flat.len();
    let mut out: Vec<char> = Vec::new();
    let mut pos: usize = 0;
    let mut m: usize = 0;
    let mut k: usize = 0;
    proof {
        assert(out@ + goal =~= goal);
    }
    while k < events.len()
        invariant
            k <= events@.len(),
            es == event_views(events@),
            ms == match_views(matches@),
            matches_ok(ms, len),
            m <= matches@.len(),
            pos + searched_text(es, k as int).len() == total,
            out@ + written_events(es, ms, k as int, pos as int, m as int) == goal,
        decreases events@.len() - k,
    {
        proof {
            assert(es[k as int] == events@[k as int]@);
        }
        let ghost before = out@;
        let searched = match &events[k] {
            HtmlEvent::Text(_, skip) => !*skip,
            _ => false,
        };
        if searched {
            if let HtmlEvent::Text(contents, _) = &events[k] {
                let c = chars_of(contents.as_str());
                let next = emit_text_slice(&c, pos, &matches, Ghost(len), m, &mut out);
                proof {
                    let rest = written_events(es, ms, k + 1, pos + c@.len(), next as int);
                    let here = written_pieces(text_pieces(c@, pos as int, ms, m as int, 0));
                    assert(out@ + rest =~= before + (here + rest));
                }
                m = next;
                pos = pos + c.len();
            }
        } else {
            push_markup(&events[k], &mut out);
            proof {
                lemma_markup_alone(es, ms, k as int, pos as int, m as int);
                let rest = written_events(es, ms, k + 1, pos as int, m as int);
                let here = written_events(seq![es[k as int]], Seq::empty(), 0, 0, 0);
                assert(out@ + rest =~= before + (here + rest));
            }
        }
        k = k + 1;
    }
    proof {
        assert(out@ =~= goal);
    }
    InjectionResult { html: string_from(&out), present_editors }
}

/// Puts a span around each token of a page.
pub fn inject_spans(html: &str, tokens: &[InjectionToken]) -> (r: InjectionResult)
    requires
        parsed_size(html@) <= 0x8000_0000,
    ensures
        r@ == annotated(flattened(html_tree(html@), false), wanted(tokens@)),
{
    let root = parse_html(html);
    let page = html_node(&root);
    let mut events: Vec<HtmlEvent> = Vec::new();
    flatten_into_events(&page, &mut events, false);
    proof {
        assert(event_views(events@) =~= flattened(html_tree(html@), false));
    }
    annotate_events(&events, tokens)
}

/// Tokens are found in the order in which they are looked for, each after the one
/// before it.
pub proof fn tokens_come_in_order(text: Seq<char>, tokens: Seq<SoughtView>)
    ensures
        matches_ok(
            matched(
                text,
                tokens,
                0,
                0,
                FoundView { matches: Seq::empty(), editors: Seq::empty() },
            ).matches,
            text.len() as int,
        ),
{
    let none = FoundView { matches: Seq::empty(), editors: Seq::empty() };
    lemma_matched(text, tokens, 0, 0, none);
}

proof fn lemma_first_of_editor(tokens: Seq<SoughtView>, editor: Seq<char>, k: int)
    requires
        0 <= k <= tokens.len(),
    ensures
        k <= first_of_editor(tokens, editor, k) <= tokens.len(),
        first_of_editor(tokens, editor, k) < tokens.len() ==> tokens[first_of_editor(
            tokens,
            editor,
            k,
        )].editor == editor,
    decreases tokens.len() - k,
{
    if k < tokens.len() && tokens[k].editor != editor {
        lemma_first_of_editor(tokens, editor, k + 1);
    }
}

/// How many tokens the editors have together whose first token is not before the
/// `k`th.
spec fn counted_from(es: Seq<PresentView>, tokens: Seq<SoughtView>, k: int) -> int
    decreases es.len(),
{
    if es.len() == 0 {
        0
    } else {
        counted_from(es.drop_last(), tokens, k) + if first_of_editor(tokens, es.last().editor, 0)
            >= k {
            es.last().token_count
        } else {
            0
        }
    }
}

proof fn lemma_counted_from(es: Seq<PresentView>, tokens: Seq<SoughtView>, k: int)
    requires
        told_once(es),
        0 <= k < tokens.len(),
    ensures
        counted_from(es, tokens, k) == counted_from(es, tokens, k + 1) + ({
            let at = editor_place(es, tokens[k].editor, 0);
            if at < es.len() && first_of_editor(tokens, tokens[k].editor, 0) == k {
                es[at].token_count
            } else {
                0
            }
        }),
    decreases es.len(),
{
    let editor = tokens[k].editor;
    lemma_editor_place(es, editor, 0);
    if es.len() > 0 {
        let less = es.drop_last();
        let at = editor_place(less, editor, 0);
        lemma_editor_place(less, editor, 0);
        lemma_counted_from(less, tokens, k);
        lemma_first_of_editor(tokens, es.last().editor, 0);
        if at < less.len() {
            assert(es[at].editor == editor);
            assert(es.last().editor != editor);
            assert(editor_place(es, editor, 0) == at);
        } else {
            assert forall|i: int| 0 <= i < less.len() implies es[i].editor != editor by {
                assert(less[i].editor != editor);
            }
        }
    }
}

proof fn lemma_counted_all(es: Seq<PresentView>, tokens: Seq<SoughtView>)
    requires
        forall|i: int| 0 <= i < es.len() ==> (#[trigger] es[i]).token_count >= 0,
    ensures
        counted_from(es, tokens, 0) == tokens_counted(es),
        counted_from(es, tokens, tokens.len() as int) >= 0,
    decreases es.len(),
{
    if es.len() > 0 {
        let less = es.drop_last();
        assert forall|i: int| 0 <= i < less.len() implies (#[trigger] less[i]).token_count >= 0 by {
            assert(less[i] == es[i]);
        }
        assert(es[es.len() - 1].token_count >= 0);
        lemma_counted_all(less, tokens);
        lemma_first_of_editor(tokens, es.last().editor, 0);
    }
}

proof fn lemma_ordered_once(es: Seq<PresentView>, tokens: Seq<SoughtView>, k: int)
    requires
        told_once(es),
        0 <= k <= tokens.len(),
    ensures
        ({
            let v = in_token_order(es, tokens, k);
            &&& told_once(v)
            &&& forall|i: int|
                0 <= i < v.len() ==> first_of_editor(tokens, (#[trigger] v[i]).editor, 0) >= k
            &&& tokens_counted(v) == counted_from(es, tokens, k) - counted_from(
                es,
                tokens,
                tokens.len() as int,
            )
        }),
    decreases tokens.len() - k,
{
    if k < tokens.len() {
        let v = in_token_order(es, tokens, k);
        let rest = in_token_order(es, tokens, k + 1);
        let at = editor_place(es, tokens[k].editor, 0);
        lemma_ordered_once(es, tokens, k + 1);
        lemma_counted_from(es, tokens, k);
        lemma_editor_place(es, tokens[k].editor, 0);
        if at < es.len() && first_of_editor(tokens, tokens[k].editor, 0) == k {
            assert(v =~= rest.insert(0, es[at]));
            lemma_counted_insert(rest, 0, es[at]);
            assert forall|i: int| 0 <= i < v.len() implies first_of_editor(
                tokens,
                (#[trigger] v[i]).editor,
                0,
            ) >= k by {
                if i > 0 {
                    assert(v[i] == rest[i - 1]);
                }
            }
            assert forall|i: int, m: int| 0 <= i < m < v.len() implies v[i].editor
                != v[m].editor by {
                assert(v[m] == rest[m - 1]);
                if i > 0 {
                    assert(v[i] == rest[i - 1]);
                }
            }
        }
    }
}

proof fn lemma_found_once(
    text: Seq<char>,
    tokens: Seq<SoughtView>,
    k: int,
    cursor: int,
    so_far: FoundView,
)
    requires
        0 <= k <= tokens.len(),
        told_once(so_far.editors),
        tokens_counted(so_far.editors) <= k,
        forall|i: int|
            0 <= i < so_far.editors.len() ==> (#[trigger] so_far.editors[i]).token_count >= 0,
    ensures
        ({
            let es = matched(text, tokens, k, cursor, so_far).editors;
            &&& told_once(es)
            &&& tokens_counted(es) <= tokens.len()
            &&& forall|i: int| 0 <= i < es.len() ==> (#[trigger] es[i]).token_count >= 0
        }),
    decreases tokens.len() - k,
{
    if k < tokens.len() {
        let t = tokens[k];
        let at = if t.str.len() == 0 {
            None
        } else {
            lowered_match(text, lowercase(t.str), cursor)
        };
        match at {
            Some((start, end)) => {
                let more = FoundView {
                    matches: so_far.matches.push(
                        MatchView { start, end, class_name: t.class_name },
                    ),
                    editors: editor_counted(so_far.editors, t),
                };
                lemma_editor_place(so_far.editors, t.editor, 0);
                lemma_editor_counted(so_far.editors, t);
                lemma_found_once(text, tokens, k + 1, end, more);
            },
            None => {
                lemma_found_once(text, tokens, k + 1, cursor, so_far);
            },
        }
    }
}

/// The editors of an annotated page are told once each, and have no more tokens
/// together than were looked for.
pub proof fn page_editors_are_told_once(es: Seq<EventView>, tokens: Seq<SoughtView>)
    ensures
        told_once(annotated(es, tokens).present_editors),
        tokens_counted(annotated(es, tokens).present_editors) <= tokens.len(),
{
    let none = FoundView { matches: Seq::empty(), editors: Seq::empty() };
    let found = matched(searched_text(es, 0), tokens, 0, 0, none).editors;
    let ordered = in_token_order(found, tokens, 0);
    lemma_found_once(searched_text(es, 0), tokens, 0, 0, none);
    lemma_ordered_once(found, tokens, 0);
    lemma_counted_all(found, tokens);
    lemma_ranked_once(ordered, ordered.len() as int);
    assert(ordered.take(ordered.len() as int) =~= ordered);
}

/// Every token found gets its span: where the `k`th match begins in a text of the page,
/// that text has a span that names its editor and its number, and holds what was found
/// there, up to the end of the text.
pub proof fn matches_get_spans(
    contents: Seq<char>,
    start: int,
    ms: Seq<MatchView>,
    len: int,
    m: int,
    local: int,
    k: int,
)
    requires
        matches_ok(ms, len),
        0 <= start,
        0 <= m <= k < ms.len(),
        start <= ms[k].start < start + contents.len(),
    ensures
        ({
            let from = ms[k].start - start;
            let to = if ms[k].end - start <= contents.len() {
                ms[k].end - start
            } else {
                contents.len() as int
            };
            text_pieces(contents, start, ms, m, local).contains(
                TextPiece::Span(ms[k].class_name, k, contents.subrange(from, to)),
            )
        }),
    decreases k - m,
{
    let from = ms[k].start - start;
    let to = if ms[k].end - start <= contents.len() {
        ms[k].end - start
    } else {
        contents.len() as int
    };
    let span = TextPiece::Span(ms[k].class_name, k, contents.subrange(from, to));
    let ps = text_pieces(contents, start, ms, m, local);
    assert(ms[k].start < ms[k].end);
    if m == k {
        let head = plain_piece(contents, local, from);
        assert(ps[head.len() as int] == span);
    } else {
        assert(ms[m].start < ms[m].end);
        assert(ms[m].end <= ms[k].start);
        if ms[m].end <= start {
            matches_get_spans(contents, start, ms, len, m + 1, local, k);
        } else {
            let a = at_least(ms[m].start - start, 0);
            let b = at_most(at_least(ms[m].end - start, 0), contents.len() as int);
            let head = plain_piece(contents, local, a) + seq![
                TextPiece::Span(ms[m].class_name, m, contents.subrange(a, b)),
            ];
            let rest = text_pieces(contents, start, ms, m + 1, b);
            matches_get_spans(contents, start, ms, len, m + 1, b, k);
            assert(ps == head + rest);
            let i = choose|i: int| 0 <= i < rest.len() && rest[i] == span;
            assert(ps[head.len() + i] == span);
        }
    }
}

/// Whether one of the tokens from the `from`th on and before the `to`th has the class.
pub open spec fn names_one(tokens: Seq<SoughtView>, class: Seq<char>, from: int, to: int) -> bool {
    exists|j: int| from <= j < to && (#[trigger] tokens[j]).class_name == class
}

/// Each token that is found is found for its own editor: a match is made for one token
/// after the other, and names the class of that token.
pub proof fn matches_are_of_tokens(text: Seq<char>, tokens: Seq<SoughtView>)
    ensures
        ({
            let none = FoundView { matches: Seq::empty(), editors: Seq::empty() };
            let ms = matched(text, tokens, 0, 0, none).matches;
            &&& ms.len() <= tokens.len()
            &&& forall|i: int|
                0 <= i < ms.len() ==> names_one(
                    tokens,
                    (#[trigger] ms[i]).class_name,
                    i,
                    tokens.len() as int,
                )
        }),
{
    let none = FoundView { matches: Seq::empty(), editors: Seq::empty() };
    lemma_matches_named(text, tokens, 0, 0, none);
}

proof fn lemma_matches_named(
    text: Seq<char>,
    tokens: Seq<SoughtView>,
    k: int,
    cursor: int,
    so_far: FoundView,
)
    requires
        0 <= k <= tokens.len(),
        so_far.matches.len() <= k,
        forall|i: int|
            0 <= i < so_far.matches.len() ==> names_one(
                tokens,
                (#[trigger] so_far.matches[i]).class_name,
                i,
                k,
            ),
    ensures
        ({
            let ms = matched(text, tokens, k, cursor, so_far).matches;
            &&& ms.len() <= tokens.len()
            &&& forall|i: int|
                0 <= i < ms.len() ==> names_one(
                    tokens,
                    (#[trigger] ms[i]).class_name,
                    i,
                    tokens.len() as int,
                )
        }),
    decreases tokens.len() - k,
{
    if k < tokens.len() {
        let t = tokens[k];
        let at = if t.str.len() == 0 {
            None
        } else {
            lowered_match(text, lowercase(t.str), cursor)
        };
        assert forall|i: int| 0 <= i < so_far.matches.len() implies names_one(
            tokens,
            (#[trigger] so_far.matches[i]).class_name,
            i,
            k + 1,
        ) by {
            assert(names_one(tokens, so_far.matches[i].class_name, i, k));
        }
        match at {
            Some((start, end)) => {
                let more = FoundView {
                    matches: so_far.matches.push(
                        MatchView { start, end, class_name: t.class_name },
                    ),
                    editors: editor_counted(so_far.editors, t),
                };
                assert forall|i: int| 0 <= i < more.matches.len() implies names_one(
                    tokens,
                    (#[trigger] more.matches[i]).class_name,
                    i,
                    k + 1,
                ) by {
                    if i < so_far.matches.len() {
                        assert(more.matches[i] == so_far.matches[i]);
                    } else {
                        assert(tokens[k].class_name == more.matches[i].class_name);
                    }
                }
                lemma_matches_named(text, tokens, k + 1, end, more);
            },
            None => {
                lemma_matches_named(text, tokens, k + 1, cursor, so_far);
            },
        }
    }
}

} // verus!
