//! Marking the author of each token in the source of a page.
//!
//! Tokens are found in the source one after the other and put into spans that name
//! their editor. Links, templates, tags and other markup must reach the renderer
//! whole, so no span starts inside them. Line breaks are held as a placeholder
//! while the source is searched, for a search to run across lines.
use crate::outside::{lowercase, regex_find, regex_found, to_lowercase};
use crate::text::{
    chars_of, contains_text, decimal, decimal_text, matches_at, occurs_at, occurs_in, push_all,
    replace_text, replaced, string_from, string_of,
};
use std::collections::HashSet;
use vstd::hash_map::StringHashMap;
use vstd::prelude::*;
use vstd::set_lib::set_int_range;

verus! {

broadcast use vstd::std_specs::hash::group_hash_axioms;

/// What stands for a line break while the source is searched.
pub const REGEX_HELPER_PATTERN: &'static str = "WIKICOLORLB";

/// `<nowiki/>`.
pub const NOWIKI_PATTERN: &'static str = r"(<nowiki */>)";

/// The start tag of an element whose content is not rendered as wiki markup.
pub const VERBATIM_PATTERN: &'static str = r"<(math|timeline|nowiki)[^>]*>";

/// The end tag of such an element.
pub const VERBATIM_END_PATTERN: &'static str = r"</(math|timeline|nowiki)>";

/// The start of a tag.
pub const TAG_PATTERN: &'static str =
    r"</?(ref|h1|h2|h3|h4|h5|h6|p|br|hr|!--|abbr|b|bdi|bdo|blockquote|cite|code|data|del|dfn|em|i|ins|kbd|mark|pre|q|ruby|rt|rp|s|samp|small|strong|sub|sup|time|u|var|wbr|dl|dt|dd|ol|ul|li|div|span|table|tr|td|th|caption)";

/// A heading.
pub const HEADING_PATTERN: &'static str = r"(=+|;)";

/// The start of a definition. The backslash is one of the characters of the class.
pub const DEFINITION_PATTERN: &'static str = r"[\\*#\\:]*;";

/// The bullets of a list. The backslash is one of the characters of the class.
pub const BULLET_PATTERN: &'static str = r"[\\*#:]+";

/// A horizontal line.
pub const RULE_PATTERN: &'static str = r"-----*";

/// Line breaks.
pub const BREAK_PATTERN: &'static str = r"(WIKICOLORLB)+";

/// An entity.
pub const ENTITY_PATTERN: &'static str =
    r"(&nbsp;|&euro;|&quot;|&amp;|&lt;|&gt;|&nbsp;|&(?:[a-z\d]+|#\d+|#x[a-f\d]+);)";

/// A magic word.
pub const MAGIC_PATTERN: &'static str =
    r"__(NOTOC|FORCETOC|TOC|NOEDITSECTION|NEWSECTIONLINK|NONEWSECTIONLINK|NOGALLERY|HIDDENCAT|NOCONTENTCONVERT|NOCC|NOTITLECONVERT|NOTC|START|END|INDEX|NOINDEX|STATICREDIRECT|DISAMBIG)__";

/// The apostrophes of italics and bold.
pub const APOSTROPHE_PATTERN: &'static str = r"''+";

/// What a markup starts or ends with: a text, or a regular expression.
pub enum Pattern {
    Plain(&'static str),
    Regex(&'static str),
}

/// The model of a pattern.
pub enum PatternView {
    Plain(Seq<char>),
    Regex(Seq<char>),
}

impl View for Pattern {
    type V = PatternView;

    open spec fn view(&self) -> PatternView {
        match self {
            Pattern::Plain(s) => PatternView::Plain(s@),
            Pattern::Regex(s) => PatternView::Regex(s@),
        }
    }
}

/// A construct of the source that spans stay out of.
pub struct SpecialMarkup {
    pub start: Pattern,
    /// Where it ends; nothing for one that is its own start alone.
    pub end: Option<Pattern>,
    /// Whether no span is opened in front of it.
    pub no_spans: bool,
    /// Whether no further markup is looked for inside it.
    pub no_jump: bool,
}

/// The model of a markup.
pub struct MarkupView {
    pub start: PatternView,
    pub end: Option<PatternView>,
    pub no_spans: bool,
    pub no_jump: bool,
}

impl View for SpecialMarkup {
    type V = MarkupView;

    open spec fn view(&self) -> MarkupView {
        MarkupView {
            start: self.start@,
            end: match self.end {
                Some(p) => Some(p@),
                None => None,
            },
            no_spans: self.no_spans,
            no_jump: self.no_jump,
        }
    }
}

/// A markup from a start to an end, both texts.
pub open spec fn block(start: PatternView, end: PatternView, no_spans: bool) -> MarkupView {
    MarkupView { start, end: Some(end), no_spans, no_jump: false }
}

/// A markup that is its start alone.
pub open spec fn single(start: Seq<char>) -> MarkupView {
    MarkupView { start: PatternView::Regex(start), end: None, no_spans: true, no_jump: true }
}

/// The markups, in the order in which one is preferred where several start at the
/// same place.
pub open spec fn markups() -> Seq<MarkupView> {
    seq![
        block(PatternView::Plain("[["@), PatternView::Plain("]]"@), false),
        block(PatternView::Plain("["@), PatternView::Plain("]"@), false),
        block(PatternView::Plain("{{"@), PatternView::Plain("}}"@), true),
        single(NOWIKI_PATTERN@),
        block(
            PatternView::Regex(VERBATIM_PATTERN@),
            PatternView::Regex(VERBATIM_END_PATTERN@),
            true,
        ),
        block(PatternView::Regex(TAG_PATTERN@), PatternView::Plain(">"@), true),
        single(HEADING_PATTERN@),
        block(PatternView::Regex(DEFINITION_PATTERN@), PatternView::Plain("\\:"@), true),
        single(BULLET_PATTERN@),
        single(RULE_PATTERN@),
        block(PatternView::Plain("{|"@), PatternView::Plain("|}"@), true),
        single(BREAK_PATTERN@),
        single(ENTITY_PATTERN@),
        single(MAGIC_PATTERN@),
        single(APOSTROPHE_PATTERN@),
    ]
}

/// Whether a pattern is one that a markup starts or ends with.
pub open spec fn is_markup_pattern(p: Seq<char>) -> bool {
    ||| p == NOWIKI_PATTERN@
    ||| p == VERBATIM_PATTERN@
    ||| p == VERBATIM_END_PATTERN@
    ||| p == TAG_PATTERN@
    ||| p == HEADING_PATTERN@
    ||| p == DEFINITION_PATTERN@
    ||| p == BULLET_PATTERN@
    ||| p == RULE_PATTERN@
    ||| p == BREAK_PATTERN@
    ||| p == ENTITY_PATTERN@
    ||| p == MAGIC_PATTERN@
    ||| p == APOSTROPHE_PATTERN@
}

/// The first place at or after `i` where `p` occurs.
pub open spec fn first_at(s: Seq<char>, p: Seq<char>, i: int) -> Option<int>
    decreases s.len() - i,
{
    if i < 0 || i >= s.len() {
        None
    } else if occurs_at(s, p, i) {
        Some(i)
    } else {
        first_at(s, p, i + 1)
    }
}

/// A stretch of the source: from, and up to.
pub struct Stretch {
    pub from: int,
    pub to: int,
}

/// Where a pattern is first found at or after `pos`: from, and up to.
pub open spec fn found(p: PatternView, text: Seq<char>, pos: int) -> Option<Stretch> {
    if pos < 0 || pos >= text.len() {
        None
    } else {
        match p {
            PatternView::Plain(l) => match first_at(text, l, pos) {
                Some(i) => Some(Stretch { from: i, to: i + l.len() }),
                None => None,
            },
            PatternView::Regex(r) => {
                match regex_found(r, text.subrange(pos, text.len() as int)) {
                    Some((before, at)) => if pos + before.len() + at.len() <= text.len() {
                        Some(
                            Stretch {
                                from: pos + before.len(),
                                to: pos + before.len() + at.len(),
                            },
                        )
                    } else {
                        None
                    },
                    None => None,
                }
            },
        }
    }
}

/// A token to be found in the source.
pub struct WikitextToken {
    /// The text, lowercased.
    pub str: String,
    /// The editor: a user id, or `0|` and the name of an anonymous one.
    pub editor: String,
    /// What names the editor in a class of the span.
    pub class_name: String,
}

/// The model of a token to be found.
pub struct SoughtView {
    pub str: Seq<char>,
    pub editor: Seq<char>,
    pub class_name: Seq<char>,
}

impl View for WikitextToken {
    type V = SoughtView;

    open spec fn view(&self) -> SoughtView {
        SoughtView {
            str: self.str@,
            editor: self.editor@,
            class_name: self.class_name@,
        }
    }
}

/// The models of several tokens.
pub open spec fn sought(v: Seq<WikitextToken>) -> Seq<SoughtView> {
    v.map_values(|t: WikitextToken| t@)
}

/// An editor, and how many tokens were found of them.
#[derive(Debug)]
pub struct PresentEditorEntry {
    pub editor: String,
    pub class_name: String,
    pub token_count: usize,
}

/// The model of an editor found.
pub struct PresentView {
    pub editor: Seq<char>,
    pub class_name: Seq<char>,
    pub token_count: int,
}

impl View for PresentEditorEntry {
    type V = PresentView;

    open spec fn view(&self) -> PresentView {
        PresentView {
            editor: self.editor@,
            class_name: self.class_name@,
            token_count: self.token_count as int,
        }
    }
}

/// The models of several editors.
pub open spec fn present(v: Seq<PresentEditorEntry>) -> Seq<PresentView> {
    v.map_values(|e: PresentEditorEntry| e@)
}

/// The source with spans, and the editors found in it.
pub struct InjectionResult {
    pub wikitext: String,
    /// The editors, most tokens first; of equals, the first found first.
    pub present_editors: Vec<PresentEditorEntry>,
}

/// The model of the source with spans.
pub struct InjectionView {
    pub wikitext: Seq<char>,
    pub present_editors: Seq<PresentView>,
}

impl View for InjectionResult {
    type V = InjectionView;

    open spec fn view(&self) -> InjectionView {
        InjectionView {
            wikitext: self.wikitext@,
            present_editors: present(self.present_editors@),
        }
    }
}

/// A character with an ASCII capital made small.
pub open spec fn ascii_lower(c: char) -> char {
    if 'A' <= c && c <= 'Z' {
        (c as u32 + 32) as char
    } else {
        c
    }
}

/// Whether every character is ASCII.
pub open spec fn all_ascii(s: Seq<char>) -> bool {
    forall|i: int| 0 <= i < s.len() ==> (#[trigger] s[i] as int) < 128
}

/// Whether `p` occurs in `s` at `i`, ASCII capitals and small letters alike.
pub open spec fn ascii_occurs_at(s: Seq<char>, p: Seq<char>, i: int) -> bool {
    &&& 0 <= i
    &&& i + p.len() <= s.len()
    &&& forall|k: int| 0 <= k < p.len() ==> ascii_lower(#[trigger] s[i + k]) == ascii_lower(p[k])
}

/// The end of the first such occurrence at or after `i`.
pub open spec fn ascii_end(s: Seq<char>, p: Seq<char>, i: int) -> Option<int>
    decreases s.len() - i,
{
    if i < 0 || i >= s.len() {
        None
    } else if ascii_occurs_at(s, p, i) {
        Some(i + p.len())
    } else {
        ascii_end(s, p, i + 1)
    }
}

/// The bytes of a character in UTF-8.
pub open spec fn char_bytes(c: char) -> int {
    let n = c as int;
    if n < 0x80 {
        1
    } else if n < 0x800 {
        2
    } else if n < 0x10000 {
        3
    } else {
        4
    }
}

/// The bytes of a text in UTF-8.
pub open spec fn text_bytes(s: Seq<char>) -> int
    decreases s.len(),
{
    if s.len() == 0 {
        0
    } else {
        text_bytes(s.drop_last()) + char_bytes(s.last())
    }
}

/// The first end, from `end` on, of a stretch that begins at `start` and whose
/// lowercase form is `low`. The search stops at a stretch whose lowercase form is
/// longer.
pub open spec fn folded_end(s: Seq<char>, low: Seq<char>, start: int, end: int) -> Option<int>
    decreases s.len() + 1 - end,
{
    if end < 0 || end > s.len() {
        None
    } else {
        let form = lowercase(s.subrange(start, end));
        if form == low {
            Some(end)
        } else if text_bytes(form) > text_bytes(low) {
            None
        } else {
            folded_end(s, low, start, end + 1)
        }
    }
}

/// The end of the first stretch, from `start` on, whose lowercase form is `low`.
pub open spec fn folded_match(s: Seq<char>, low: Seq<char>, start: int) -> Option<int>
    decreases s.len() - start,
{
    if start < 0 || start >= s.len() {
        None
    } else {
        match folded_end(s, low, start, start + 1) {
            Some(e) => Some(e),
            None => folded_match(s, low, start + 1),
        }
    }
}

/// The end of the first occurrence of `p` in `s` from `start` on, capitals and
/// small letters alike.
pub open spec fn caseless_end(s: Seq<char>, start: int, p: Seq<char>) -> Option<int> {
    if p.len() == 0 || start < 0 || start >= s.len() {
        None
    } else {
        let rest = s.subrange(start, s.len() as int);
        if all_ascii(p) && all_ascii(rest) {
            ascii_end(s, p, start)
        } else if occurs_in(lowercase(rest), lowercase(p)) {
            folded_match(s, lowercase(p), start)
        } else {
            None
        }
    }
}

/// A markup found: which one, where, and how long its start is.
pub struct ElemView {
    pub markup: int,
    pub start: int,
    pub len: int,
}

/// A piece of the result: text of the source, the start of a span for a token, or
/// the end of a span.
pub enum Piece {
    Text(Seq<char>),
    Open(Seq<char>, int),
    Close,
}

/// What is searched: the source, its line breaks held as placeholders, and for
/// which tokens.
pub struct Job {
    pub text: Seq<char>,
    pub tokens: Seq<SoughtView>,
}

/// How far the search has come.
pub struct Progress {
    /// What is before is in the result.
    pub pos: int,
    /// The token at hand.
    pub index: int,
    /// Where the token at hand ends; nothing once no token is left.
    pub token_end: Option<int>,
    /// Whether a span is open.
    pub open: bool,
    /// Where markup that was gone into starts.
    pub jumped: Set<int>,
    pub pieces: Seq<Piece>,
    /// The editors found, in the order in which they were.
    pub editors: Seq<PresentView>,
}

/// A markup that is gone into, or the source as a whole.
pub struct FrameView {
    pub elem: Option<ElemView>,
    pub no_jump: bool,
    /// Where the markup ends: from, and up to.
    pub elem_end: Option<Stretch>,
    /// The markup that comes next.
    pub next: Option<ElemView>,
}

/// The place of an editor among those found.
pub open spec fn editor_place(es: Seq<PresentView>, editor: Seq<char>, k: int) -> int
    decreases es.len() - k,
{
    if k < 0 || k >= es.len() {
        es.len() as int
    } else if es[k].editor == editor {
        k
    } else {
        editor_place(es, editor, k + 1)
    }
}

/// The editors found once a token of an editor is found. An editor keeps the first
/// class name seen.
pub open spec fn editor_counted(es: Seq<PresentView>, t: SoughtView) -> Seq<PresentView> {
    let k = editor_place(es, t.editor, 0);
    if k < es.len() {
        es.update(k, PresentView { token_count: es[k].token_count + 1, ..es[k] })
    } else {
        es.push(PresentView { editor: t.editor, class_name: t.class_name, token_count: 1 })
    }
}

/// The next token that is found, at or after the token at hand; tokens that are
/// not found are passed over.
pub open spec fn token_set(j: Job, s: Progress) -> Progress
    decreases j.tokens.len() - s.index,
{
    if s.index < 0 || s.index >= j.tokens.len() {
        Progress { token_end: None, ..s }
    } else {
        match caseless_end(j.text, s.pos, j.tokens[s.index].str) {
            Some(e) => Progress {
                token_end: Some(e),
                editors: editor_counted(s.editors, j.tokens[s.index]),
                ..s
            },
            None => token_set(j, Progress { index: s.index + 1, ..s }),
        }
    }
}

/// The markup that starts first, of those from `i` on and `best`. A markup whose
/// first place was gone into already is left out.
pub open spec fn next_markup(
    text: Seq<char>,
    pos: int,
    jumped: Set<int>,
    i: int,
    best: Option<ElemView>,
) -> Option<ElemView>
    decreases markups().len() - i,
{
    if i < 0 || i >= markups().len() {
        best
    } else {
        let here = found(markups()[i].start, text, pos);
        next_markup(text, pos, jumped, i + 1, earlier(here, jumped, i, best))
    }
}

/// `best`, or the markup `i` where it was found earlier.
pub open spec fn earlier(
    here: Option<Stretch>,
    jumped: Set<int>,
    i: int,
    best: Option<ElemView>,
) -> Option<ElemView> {
    match here {
        Some(Stretch { from, to }) => if jumped.contains(from) || (best is Some && best->0.start <= from) {
            best
        } else {
            Some(ElemView { markup: i, start: from, len: to - from })
        },
        None => best,
    }
}

/// Where a markup ends, looked for from `pos` on. One that is not closed ends with
/// the source.
pub open spec fn elem_end(text: Seq<char>, pos: int, e: ElemView) -> Stretch {
    match markups()[e.markup].end {
        None => Stretch { from: e.start, to: e.start + e.len },
        Some(p) => match found(p, text, pos) {
            Some(at) => at,
            None => Stretch { from: text.len() as int, to: text.len() as int },
        },
    }
}

/// What to do next.
#[derive(Debug, Clone, Copy, PartialEq, Eq, Structural)]
pub enum Action {
    /// The source is at its end: close the span and leave.
    Finish,
    /// No token is left: put out the rest of the source and leave.
    Flush,
    /// Go into the markup that comes next.
    Jump,
    /// The markup ends before the token: put it out and leave it.
    Leave,
    /// Put out the token.
    Advance,
}

/// What to do next.
pub open spec fn action(
    len: int,
    pos: int,
    token_end: Option<int>,
    no_jump: bool,
    elem_end: Option<Stretch>,
    next: Option<int>,
) -> Action {
    if pos >= len {
        Action::Finish
    } else if token_end is None {
        Action::Flush
    } else if !no_jump && next is Some && next->0 < token_end->0 && (elem_end is None || (pos
        < elem_end->0.from && next->0 < elem_end->0.from)) {
        Action::Jump
    } else if elem_end is Some && elem_end->0.to < token_end->0 {
        Action::Leave
    } else {
        Action::Advance
    }
}

/// The frame of a markup just gone into.
pub open spec fn entered(j: Job, s: Progress, e: ElemView) -> FrameView {
    let no_jump = markups()[e.markup].no_jump;
    FrameView {
        elem: Some(e),
        no_jump,
        elem_end: Some(elem_end(j.text, s.pos, e)),
        next: if no_jump {
            None
        } else {
            next_markup(j.text, s.pos, s.jumped, 0, None)
        },
    }
}

/// The frame of the source as a whole.
pub open spec fn outermost(j: Job, s: Progress) -> FrameView {
    FrameView {
        elem: None,
        no_jump: false,
        elem_end: None,
        next: next_markup(j.text, s.pos, s.jumped, 0, None),
    }
}

/// A frame that is come back to: its end and the markup that comes next are looked
/// for anew.
pub open spec fn refreshed(j: Job, s: Progress, f: FrameView) -> FrameView {
    FrameView {
        elem_end: match f.elem {
            Some(e) => Some(elem_end(j.text, s.pos, e)),
            None => None,
        },
        next: next_markup(j.text, s.pos, s.jumped, 0, None),
        ..f
    }
}

/// The frames once the innermost is left.
pub open spec fn left(j: Job, s: Progress, frames: Seq<FrameView>) -> Seq<FrameView> {
    let rest = frames.drop_last();
    if rest.len() == 0 {
        rest
    } else {
        rest.update(rest.len() - 1, refreshed(j, s, rest.last()))
    }
}

/// The span that is open, closed.
pub open spec fn closed(s: Progress) -> Progress {
    Progress {
        open: false,
        pieces: if s.open {
            s.pieces.push(Piece::Close)
        } else {
            s.pieces
        },
        ..s
    }
}

/// The span that is open closed, and a new one opened for the token at hand where
/// it is wanted.
pub open spec fn respanned(j: Job, s: Progress, wanted: bool) -> Progress {
    let c = closed(s);
    if wanted {
        Progress {
            open: true,
            pieces: c.pieces.push(Piece::Open(j.tokens[s.index].class_name, s.index)),
            ..c
        }
    } else {
        c
    }
}

/// The source put out up to `to`.
pub open spec fn put_out(j: Job, s: Progress, to: int) -> Progress {
    Progress { pos: to, pieces: s.pieces.push(Piece::Text(j.text.subrange(s.pos, to))), ..s }
}

/// What the innermost frame does next.
pub open spec fn frame_action(j: Job, s: Progress, f: FrameView) -> Action {
    action(
        j.text.len() as int,
        s.pos,
        s.token_end,
        f.no_jump,
        f.elem_end,
        match f.next {
            Some(e) => Some(e.start),
            None => None,
        },
    )
}

/// The markup that comes next, gone into: a span goes before it only from outside
/// of any markup.
pub open spec fn jumped_into(j: Job, s: Progress, f: FrameView) -> Progress {
    let e = f.next->0;
    let t = Progress { jumped: s.jumped.insert(e.start), ..s };
    if f.elem is None {
        respanned(j, t, !markups()[e.markup].no_spans)
    } else {
        t
    }
}

/// The token at hand put out, in a span where no markup is around it, and the next
/// one looked for.
pub open spec fn advanced(j: Job, s: Progress, f: FrameView) -> Progress {
    let t = if f.elem is None {
        respanned(j, s, true)
    } else {
        s
    };
    let u = put_out(j, t, s.token_end->0);
    token_set(j, Progress { index: u.index + 1, ..u })
}

/// One step of the search.
pub open spec fn step(j: Job, s: Progress, frames: Seq<FrameView>) -> (Progress, Seq<FrameView>) {
    let f = frames.last();
    match frame_action(j, s, f) {
        Action::Finish => (closed(s), left(j, closed(s), frames)),
        Action::Flush => {
            let t = closed(put_out(j, s, j.text.len() as int));
            (t, left(j, t, frames))
        },
        Action::Jump => {
            let t = jumped_into(j, s, f);
            (t, frames.push(entered(j, t, f.next->0)))
        },
        Action::Leave => {
            let t = put_out(j, s, f.elem_end->0.to);
            (t, left(j, t, frames))
        },
        Action::Advance => (advanced(j, s, f), frames),
    }
}

/// A markup whose start lies in the source.
pub open spec fn elem_ok(j: Job, e: ElemView) -> bool {
    0 <= e.markup < markups().len() && 0 <= e.start && 0 <= e.len && e.start + e.len <= j.text.len()
}

/// How far the search has come makes sense.
pub open spec fn progress_ok(j: Job, s: Progress) -> bool {
    &&& 0 <= s.pos <= j.text.len()
    &&& 0 <= s.index <= j.tokens.len()
    &&& s.token_end is Some ==> s.pos < s.token_end->0 <= j.text.len() && s.index < j.tokens.len()
    &&& s.jumped.subset_of(set_int_range(0, j.text.len() as int))
}

/// A frame makes sense: a markup without an end of its own holds no other.
pub open spec fn frame_ok(j: Job, f: FrameView) -> bool {
    &&& f.elem is Some == f.elem_end is Some
    &&& f.elem is Some ==> elem_ok(j, f.elem->0) && (markups()[f.elem->0.markup].end is None
        ==> f.no_jump)
    &&& f.elem is None ==> !f.no_jump
}

/// The innermost frame is up to date: the markup that comes next is not behind,
/// unless the frame ends before it.
pub open spec fn top_ok(j: Job, s: Progress, f: FrameView) -> bool {
    &&& f.elem_end is Some ==> s.pos <= f.elem_end->0.to <= j.text.len()
    &&& f.no_jump ==> f.next is None
    &&& f.next is Some ==> elem_ok(j, f.next->0) && !s.jumped.contains(f.next->0.start)
    &&& f.next is Some ==> s.pos <= f.next->0.start || (f.elem_end is Some && (f.elem_end->0.from
        <= s.pos || f.elem_end->0.from <= f.next->0.start))
}

/// The search makes sense.
pub open spec fn search_ok(j: Job, s: Progress, frames: Seq<FrameView>) -> bool {
    &&& progress_ok(j, s)
    &&& forall|i: int| 0 <= i < frames.len() ==> frame_ok(j, #[trigger] frames[i])
    &&& forall|i: int| 0 <= i < frames.len() ==> (frames[i].elem is None <==> i == 0)
    &&& forall|i: int| 0 <= i < frames.len() - 1 ==> !(#[trigger] frames[i]).no_jump
    &&& frames.len() > 0 ==> top_ok(j, s, frames.last())
}

/// The search to its end.
pub open spec fn searched(j: Job, s: Progress, frames: Seq<FrameView>) -> Progress
    decreases
            j.text.len() - s.jumped.len(),
            j.tokens.len() - s.index,
            frames.len(),
        when search_ok(j, s, frames)
{
    if frames.len() == 0 {
        s
    } else {
        proof {
            lemma_step_decreases(j, s, frames);
        }
        let (t, rest) = step(j, s, frames);
        searched(j, t, rest)
    }
}

/// The search before its first step.
pub open spec fn begun(j: Job) -> Progress {
    token_set(
        j,
        Progress {
            pos: 0,
            index: 0,
            token_end: None,
            open: false,
            jumped: Set::empty(),
            pieces: Seq::empty(),
            editors: Seq::empty(),
        },
    )
}

/// The search of a source from beginning to end.
pub open spec fn marked(j: Job) -> Progress {
    searched(j, begun(j), seq![outermost(j, begun(j))])
}

pub proof fn lemma_first_at(s: Seq<char>, p: Seq<char>, i: int)
    ensures
        match first_at(s, p, i) {
            Some(k) => i <= k < s.len() && occurs_at(s, p, k),
            None => true,
        },
    decreases s.len() - i,
{
    if 0 <= i < s.len() && !occurs_at(s, p, i) {
        lemma_first_at(s, p, i + 1);
    }
}

pub proof fn lemma_found(p: PatternView, text: Seq<char>, pos: int)
    ensures
        match found(p, text, pos) {
            Some(Stretch { from, to }) => pos <= from <= to <= text.len(),
            None => true,
        },
{
    if let PatternView::Plain(l) = p {
        lemma_first_at(text, l, pos);
    }
}

proof fn lemma_ascii_end(s: Seq<char>, p: Seq<char>, i: int)
    requires
        p.len() > 0,
    ensures
        match ascii_end(s, p, i) {
            Some(e) => i < e <= s.len(),
            None => true,
        },
    decreases s.len() - i,
{
    if 0 <= i < s.len() && !ascii_occurs_at(s, p, i) {
        lemma_ascii_end(s, p, i + 1);
    }
}

proof fn lemma_folded_end(s: Seq<char>, low: Seq<char>, start: int, end: int)
    ensures
        match folded_end(s, low, start, end) {
            Some(e) => end <= e <= s.len(),
            None => true,
        },
    decreases s.len() + 1 - end,
{
    if 0 <= end <= s.len() {
        lemma_folded_end(s, low, start, end + 1);
    }
}

proof fn lemma_folded_match(s: Seq<char>, low: Seq<char>, start: int)
    ensures
        match folded_match(s, low, start) {
            Some(e) => start < e <= s.len(),
            None => true,
        },
    decreases s.len() - start,
{
    if 0 <= start < s.len() {
        lemma_folded_end(s, low, start, start + 1);
        lemma_folded_match(s, low, start + 1);
    }
}

pub proof fn lemma_caseless(s: Seq<char>, start: int, p: Seq<char>)
    ensures
        match caseless_end(s, start, p) {
            Some(e) => start < e <= s.len(),
            None => true,
        },
{
    if p.len() > 0 {
        lemma_ascii_end(s, p, start);
        lemma_folded_match(s, lowercase(p), start);
    }
}

/// Looking for the next token moves on to a token only.
pub proof fn lemma_token_set(j: Job, s: Progress)
    requires
        0 <= s.index <= j.tokens.len(),
        0 <= s.pos <= j.text.len(),
    ensures
        ({
            let t = token_set(j, s);
            &&& s.index <= t.index <= j.tokens.len()
            &&& t.pos == s.pos
            &&& t.open == s.open
            &&& t.jumped == s.jumped
            &&& t.pieces == s.pieces
            &&& t.token_end is Some ==> s.pos < t.token_end->0 <= j.text.len() && t.index
                < j.tokens.len()
        }),
    decreases j.tokens.len() - s.index,
{
    if s.index < j.tokens.len() {
        lemma_caseless(j.text, s.pos, j.tokens[s.index].str);
        if caseless_end(j.text, s.pos, j.tokens[s.index].str) is None {
            lemma_token_set(j, Progress { index: s.index + 1, ..s });
        }
    }
}

/// Where the token at hand ends does not matter to the search for the next one.
proof fn lemma_token_set_anew(j: Job, s: Progress)
    requires
        0 <= s.index,
    ensures
        token_set(j, s) == token_set(j, Progress { token_end: None, ..s }),
    decreases j.tokens.len() - s.index,
{
    if s.index < j.tokens.len() {
        let next = Progress { index: s.index + 1, ..s };
        lemma_token_set_anew(j, next);
    }
}

pub proof fn lemma_next_markup(
    text: Seq<char>,
    pos: int,
    jumped: Set<int>,
    i: int,
    best: Option<ElemView>,
)
    requires
        0 <= i,
        best is Some ==> 0 <= best->0.markup < markups().len() && pos <= best->0.start && 0
            <= best->0.len && best->0.start + best->0.len <= text.len() && !jumped.contains(
            best->0.start,
        ),
    ensures
        ({
            let r = next_markup(text, pos, jumped, i, best);
            r is Some ==> 0 <= r->0.markup < markups().len() && pos <= r->0.start && 0 <= r->0.len
                && r->0.start + r->0.len <= text.len() && !jumped.contains(r->0.start)
        }),
    decreases markups().len() - i,
{
    if i < markups().len() {
        let here = found(markups()[i].start, text, pos);
        lemma_found(markups()[i].start, text, pos);
        lemma_next_markup(text, pos, jumped, i + 1, earlier(here, jumped, i, best));
    }
}


/// A step leaves a search that makes sense, and comes nearer to the end.
pub proof fn lemma_step_decreases(j: Job, s: Progress, frames: Seq<FrameView>)
    requires
        search_ok(j, s, frames),
        frames.len() > 0,
    ensures
        ({
            let (t, rest) = step(j, s, frames);
            &&& search_ok(j, t, rest)
            &&& s.jumped.len() <= t.jumped.len() <= j.text.len()
            &&& s.index <= t.index <= j.tokens.len()
            &&& t.jumped.len() > s.jumped.len() || t.index > s.index || rest.len() < frames.len()
            &&& t.jumped.len() == s.jumped.len() ==> t.jumped == s.jumped
        }),
{
    let f = frames.last();
    let (t, rest) = step(j, s, frames);
    let n = j.text.len() as int;
    assert(frame_ok(j, f));
    lemma_range(s.jumped, n);
    match frame_action(j, s, f) {
        Action::Jump => {
            let e = f.next->0;
            assert(t.jumped == s.jumped.insert(e.start));
            lemma_range(t.jumped, n);
            lemma_entered(j, t, e);
        },
        Action::Advance => {
            let u = if f.elem is None {
                respanned(j, s, true)
            } else {
                s
            };
            let v = put_out(j, u, s.token_end->0);
            lemma_token_set(j, Progress { index: v.index + 1, ..v });
        },
        _ => {
            if rest.len() > 0 {
                let g = frames[frames.len() - 2];
                assert(rest.last() == refreshed(j, t, g));
                lemma_refreshed(j, t, g);
                assert forall|i: int| 0 <= i < rest.len() implies frame_ok(j, #[trigger] rest[i]) by {
                    if i < rest.len() - 1 {
                        assert(rest[i] == frames[i]);
                    }
                }
            }
        },
    }
}

proof fn lemma_range(set: Set<int>, n: int)
    requires
        set.subset_of(set_int_range(0, n)),
        0 <= n,
    ensures
        set.finite(),
        set.len() <= n,
{
    vstd::set_lib::lemma_int_range(0, n);
    vstd::set_lib::lemma_len_subset(set, set_int_range(0, n));
}

proof fn lemma_entered(j: Job, s: Progress, e: ElemView)
    requires
        progress_ok(j, s),
        elem_ok(j, e),
        s.pos <= e.start,
    ensures
        frame_ok(j, entered(j, s, e)),
        top_ok(j, s, entered(j, s, e)),
{
    if let Some(p) = markups()[e.markup].end {
        lemma_found(p, j.text, s.pos);
    }
    lemma_next_markup(j.text, s.pos, s.jumped, 0, None);
}

proof fn lemma_refreshed(j: Job, s: Progress, f: FrameView)
    requires
        progress_ok(j, s),
        frame_ok(j, f),
        !f.no_jump,
    ensures
        frame_ok(j, refreshed(j, s, f)),
        top_ok(j, s, refreshed(j, s, f)),
{
    if let Some(e) = f.elem {
        if let Some(p) = markups()[e.markup].end {
            lemma_found(p, j.text, s.pos);
        }
    }
    lemma_next_markup(j.text, s.pos, s.jumped, 0, None);
}

/// The text of the source among the pieces.
pub open spec fn shown(ps: Seq<Piece>) -> Seq<char>
    decreases ps.len(),
{
    if ps.len() == 0 {
        Seq::empty()
    } else {
        match ps.last() {
            Piece::Text(t) => shown(ps.drop_last()) + t,
            _ => shown(ps.drop_last()),
        }
    }
}

/// Whether a span is open after the pieces; nothing where a span was opened inside
/// another or closed without being open.
pub open spec fn span_open(ps: Seq<Piece>) -> Option<bool>
    decreases ps.len(),
{
    if ps.len() == 0 {
        Some(false)
    } else {
        match (span_open(ps.drop_last()), ps.last()) {
            (Some(open), Piece::Text(_)) => Some(open),
            (Some(false), Piece::Open(_, _)) => Some(true),
            (Some(true), Piece::Close) => Some(false),
            _ => None,
        }
    }
}

/// The pieces hold the source so far, and their spans are in order.
pub(crate) open spec fn pieces_ok(j: Job, s: Progress) -> bool {
    shown(s.pieces) == j.text.take(s.pos) && span_open(s.pieces) == Some(s.open)
}

pub(crate) proof fn lemma_push(ps: Seq<Piece>, p: Piece)
    ensures
        ps.push(p).drop_last() == ps,
        ps.push(p).last() == p,
{
    assert(ps.push(p).drop_last() =~= ps);
}

proof fn lemma_closed(j: Job, s: Progress)
    requires
        pieces_ok(j, s),
    ensures
        pieces_ok(j, closed(s)),
{
    lemma_push(s.pieces, Piece::Close);
}

proof fn lemma_respanned(j: Job, s: Progress, wanted: bool)
    requires
        pieces_ok(j, s),
    ensures
        pieces_ok(j, respanned(j, s, wanted)),
{
    lemma_closed(j, s);
    lemma_push(closed(s).pieces, Piece::Open(j.tokens[s.index].class_name, s.index));
}

proof fn lemma_put_out(j: Job, s: Progress, to: int)
    requires
        pieces_ok(j, s),
        0 <= s.pos <= to <= j.text.len(),
    ensures
        pieces_ok(j, put_out(j, s, to)),
{
    lemma_push(s.pieces, Piece::Text(j.text.subrange(s.pos, to)));
    assert(j.text.take(s.pos) + j.text.subrange(s.pos, to) =~= j.text.take(to));
}

pub(crate) proof fn lemma_step_pieces(j: Job, s: Progress, frames: Seq<FrameView>)
    requires
        search_ok(j, s, frames),
        frames.len() > 0,
        pieces_ok(j, s),
    ensures
        ({
            let (t, rest) = step(j, s, frames);
            pieces_ok(j, t) && (rest.len() == 0 ==> t.pos == j.text.len() && !t.open)
        }),
{
    let f = frames.last();
    let n = j.text.len() as int;
    assert(frame_ok(j, f));
    match frame_action(j, s, f) {
        Action::Finish => {
            lemma_closed(j, s);
        },
        Action::Flush => {
            lemma_put_out(j, s, n);
            lemma_closed(j, put_out(j, s, n));
        },
        Action::Jump => {
            let e = f.next->0;
            let t = Progress { jumped: s.jumped.insert(e.start), ..s };
            lemma_respanned(j, t, !markups()[e.markup].no_spans);
        },
        Action::Leave => {
            lemma_put_out(j, s, f.elem_end->0.to);
        },
        Action::Advance => {
            lemma_respanned(j, s, true);
            let t = if f.elem is None {
                respanned(j, s, true)
            } else {
                s
            };
            lemma_put_out(j, t, s.token_end->0);
            let v = put_out(j, t, s.token_end->0);
            lemma_token_set(j, Progress { index: v.index + 1, ..v });
        },
    }
}

proof fn lemma_searched(j: Job, s: Progress, frames: Seq<FrameView>)
    requires
        search_ok(j, s, frames),
        pieces_ok(j, s),
        frames.len() == 0 ==> s.pos == j.text.len() && !s.open,
    ensures
        ({
            let t = searched(j, s, frames);
            pieces_ok(j, t) && t.pos == j.text.len() && !t.open
        }),
    decreases j.text.len() - s.jumped.len(), j.tokens.len() - s.index, frames.len(),
{
    if frames.len() > 0 {
        lemma_step_decreases(j, s, frames);
        lemma_step_pieces(j, s, frames);
        let (t, rest) = step(j, s, frames);
        lemma_searched(j, t, rest);
    }
}

/// The search begins in a state that makes sense.
pub proof fn lemma_begun(j: Job)
    ensures
        search_ok(j, begun(j), seq![outermost(j, begun(j))]),
        begun(j).pieces == Seq::<Piece>::empty(),
        begun(j).pos == 0,
        !begun(j).open,
        begun(j).jumped == Set::<int>::empty(),
{
    let s = Progress {
        pos: 0,
        index: 0,
        token_end: None,
        open: false,
        jumped: Set::empty(),
        pieces: Seq::empty(),
        editors: Seq::empty(),
    };
    lemma_token_set(j, s);
    lemma_next_markup(j.text, 0, Set::empty(), 0, None);
}

/// Marking changes nothing of the source: the text among the pieces is the source.
pub proof fn marking_keeps_text(j: Job)
    ensures
        shown(marked(j).pieces) == j.text,
{
    lemma_begun(j);
    assert(j.text.take(0) =~= Seq::empty());
    lemma_searched(j, begun(j), seq![outermost(j, begun(j))]);
    assert(j.text.take(j.text.len() as int) =~= j.text);
}

/// No span lies in another, and every span is closed.
pub proof fn spans_are_closed(j: Job)
    ensures
        span_open(marked(j).pieces) == Some(false),
{
    lemma_begun(j);
    assert(j.text.take(0) =~= Seq::empty());
    lemma_searched(j, begun(j), seq![outermost(j, begun(j))]);
}

/// Inside markup no span begins.
pub proof fn no_span_begins_in_markup(j: Job, s: Progress, frames: Seq<FrameView>)
    requires
        search_ok(j, s, frames),
        frames.len() > 1,
    ensures
        ({
            let (t, rest) = step(j, s, frames);
            &&& s.pieces.is_prefix_of(t.pieces)
            &&& forall|i: int|
                s.pieces.len() <= i < t.pieces.len() ==> !((#[trigger] t.pieces[i]) is Open)
        }),
{
    let f = frames.last();
    assert(f.elem is Some);
    if frame_action(j, s, f) == Action::Advance {
        let v = put_out(j, s, s.token_end->0);
        lemma_token_set(j, Progress { index: v.index + 1, ..v });
    }
}

/// A character as it stands in an attribute.
pub open spec fn attribute_char(c: char) -> Seq<char> {
    if c == '"' {
        "&quot;"@
    } else if c == '&' {
        "&amp;"@
    } else if c == '<' {
        "&lt;"@
    } else if c == '>' {
        "&gt;"@
    } else {
        seq![c]
    }
}

/// A text as it stands in an attribute.
pub open spec fn attribute_text(s: Seq<char>) -> Seq<char>
    decreases s.len(),
{
    if s.len() == 0 {
        Seq::empty()
    } else {
        attribute_text(s.drop_last()) + attribute_char(s.last())
    }
}

/// A piece as it is written.
pub open spec fn piece_text(p: Piece) -> Seq<char> {
    match p {
        Piece::Text(t) => t,
        Piece::Open(class, index) => "<span class=\"editor-token token-editor-"@ + attribute_text(
            class,
        ) + "\" id=\"token-"@ + decimal(index as nat) + "\">"@,
        Piece::Close => "</span>"@,
    }
}

/// The pieces as they are written.
pub open spec fn rendered(ps: Seq<Piece>) -> Seq<char>
    decreases ps.len(),
{
    if ps.len() == 0 {
        Seq::empty()
    } else {
        rendered(ps.drop_last()) + piece_text(ps.last())
    }
}

/// The source with its line breaks held as placeholders.
pub open spec fn breaks_held(text: Seq<char>) -> Seq<char> {
    replaced(
        replaced(replaced(text, "\r\n"@, REGEX_HELPER_PATTERN@), "\n"@, REGEX_HELPER_PATTERN@),
        "\r"@,
        REGEX_HELPER_PATTERN@,
    )
}

/// The place, from `k` on, of the first editor with fewer tokens.
pub open spec fn rank_place(es: Seq<PresentView>, count: int, k: int) -> int
    decreases es.len() - k,
{
    if k < 0 || k >= es.len() {
        es.len() as int
    } else if es[k].token_count < count {
        k
    } else {
        rank_place(es, count, k + 1)
    }
}

/// The first `k` editors, most tokens first; of equals, the first found first.
pub open spec fn ranked(es: Seq<PresentView>, k: int) -> Seq<PresentView>
    decreases k,
{
    if k <= 0 {
        Seq::empty()
    } else {
        let before = ranked(es, k - 1);
        before.insert(rank_place(before, es[k - 1].token_count, 0), es[k - 1])
    }
}

/// The source with spans, and the editors found.
pub open spec fn injected(text: Seq<char>, tokens: Seq<SoughtView>) -> InjectionView {
    let m = marked(Job { text: breaks_held(text), tokens });
    InjectionView {
        wikitext: replaced(rendered(m.pieces), REGEX_HELPER_PATTERN@, "\n"@),
        present_editors: ranked(m.editors, m.editors.len() as int),
    }
}

/// Appends a text as it stands in an attribute.
fn push_escaped_attr(text: &str, out: &mut Vec<char>)
    ensures
        final(out)@ == old(out)@ + attribute_text(text@),
{
    let c = chars_of(text);
    let ghost start = out@;
    let mut i: usize = 0;
    proof {
        assert(out@ =~= start + attribute_text(c@.take(0)));
    }
    while i < c.len()
        invariant
            i <= c@.len(),
            out@ == start + attribute_text(c@.take(i as int)),
        decreases c@.len() - i,
    {
        let ghost before = out@;
        if c[i] == '"' {
            push_str(out, "&quot;");
        } else if c[i] == '&' {
            push_str(out, "&amp;");
        } else if c[i] == '<' {
            push_str(out, "&lt;");
        } else if c[i] == '>' {
            push_str(out, "&gt;");
        } else {
            out.push(c[i]);
        }
        proof {
            assert(c@.take(i + 1).drop_last() =~= c@.take(i as int));
            assert(c@.take(i + 1).last() == c@[i as int]);
            assert(out@ =~= before + attribute_char(c@[i as int]));
            assert(out@ =~= start + attribute_text(c@.take(i + 1)));
        }
        i = i + 1;
    }
    proof {
        assert(c@.take(c@.len() as int) =~= text@);
    }
}

/// Appends a text.
pub(crate) fn push_str(out: &mut Vec<char>, text: &str)
    ensures
        final(out)@ == old(out)@ + text@,
{
    let c = chars_of(text);
    push_all(out, c.as_slice());
}

/// A character with an ASCII capital made small.
fn small(c: char) -> (r: char)
    ensures
        r == ascii_lower(c),
{
    if 'A' <= c && c <= 'Z' {
        (c as u8 + 32) as char
    } else {
        c
    }
}

/// Whether every character from `from` on is ASCII.
fn ascii_from(s: &Vec<char>, from: usize) -> (r: bool)
    requires
        from <= s@.len(),
    ensures
        r == all_ascii(s@.subrange(from as int, s@.len() as int)),
{
    let ghost rest = s@.subrange(from as int, s@.len() as int);
    let mut i: usize = from;
    while i < s.len()
        invariant
            from <= i <= s@.len(),
            rest == s@.subrange(from as int, s@.len() as int),
            forall|k: int| 0 <= k < i - from ==> (#[trigger] rest[k] as int) < 128,
        decreases s@.len() - i,
    {
        let c: char = s[i];
        if c >= '\u{80}' {
            proof {
                assert(rest[i - from] as int >= 128);
            }
            return false;
        }
        i = i + 1;
    }
    true
}

/// Whether `p` occurs in `s` at `i`, ASCII capitals and small letters alike.
fn ascii_matches_at(s: &Vec<char>, p: &Vec<char>, i: usize) -> (r: bool)
    requires
        i <= s@.len(),
    ensures
        r == ascii_occurs_at(s@, p@, i as int),
{
    let n: usize = s.len();
    if p.len() > n - i {
        return false;
    }
    let mut k: usize = 0;
    while k < p.len()
        invariant
            n == s@.len(),
            k <= p@.len(),
            i + p@.len() <= s@.len(),
            forall|m: int| 0 <= m < k ==> ascii_lower(#[trigger] s@[i + m]) == ascii_lower(p@[m]),
        decreases p@.len() - k,
    {
        if small(s[i + k]) != small(p[k]) {
            proof {
                assert(ascii_lower(s@[i + k]) != ascii_lower(p@[k as int]));
            }
            return false;
        }
        k = k + 1;
    }
    true
}

/// The bytes of a text in UTF-8.
pub(crate) fn count_bytes(text: &str) -> (r: u128)
    ensures
        r == text_bytes(text@),
{
    let c = chars_of(text);
    let mut n: u128 = 0;
    let mut i: usize = 0;
    while i < c.len()
        invariant
            i <= c@.len(),
            n == text_bytes(c@.take(i as int)),
            n <= 4 * i,
        decreases c@.len() - i,
    {
        let at: char = c[i];
        let width: u128 = if '\u{80}' > at {
            1
        } else if '\u{800}' > at {
            2
        } else if '\u{10000}' > at {
            3
        } else {
            4
        };
        proof {
            assert(c@.take(i + 1).drop_last() =~= c@.take(i as int));
            assert(c@.take(i + 1).last() == c@[i as int]);
        }
        n = n + width;
        i = i + 1;
    }
    proof {
        assert(c@.take(c@.len() as int) =~= text@);
    }
    n
}

/// The end of the first stretch, from `from` on, whose lowercase form is
/// `needle_lower`.
fn scan_unicode_match(hay: &Vec<char>, needle_lower: &str, from: usize) -> (r: Option<usize>)
    requires
        from <= hay@.len(),
    ensures
        opt_int(r) == folded_match(hay@, needle_lower@, from as int),
{
    let total = count_bytes(needle_lower);
    let n: usize = hay.len();
    let mut start: usize = from;
    while start < n
        invariant
            n == hay@.len(),
            from <= start <= n,
            total == text_bytes(needle_lower@),
            folded_match(hay@, needle_lower@, start as int) == folded_match(
                hay@,
                needle_lower@,
                from as int,
            ),
        decreases n - start,
    {
        let mut end: usize = start + 1;
        let mut go: bool = true;
        while go && end <= n
            invariant
                n == hay@.len(),
                from <= start < n,
                start < end <= n + 1,
                n < usize::MAX || end <= n,
                total == text_bytes(needle_lower@),
                folded_match(hay@, needle_lower@, start as int) == folded_match(
                    hay@,
                    needle_lower@,
                    from as int,
                ),
                folded_end(hay@, needle_lower@, start as int, start + 1) == (if go {
                    folded_end(hay@, needle_lower@, start as int, end as int)
                } else {
                    None::<int>
                }),
            decreases
                    n + 1 - end + (if go {
                        1int
                    } else {
                        0
                    }),
        {
            let candidate = string_of(hay.as_slice(), start, end);
            let form = to_lowercase(candidate.as_str());
            if crate::text::same_text(form.as_str(), needle_lower) {
                return Some(end);
            }
            if count_bytes(form.as_str()) > total || end == n {
                proof {
                    assert(folded_end(hay@, needle_lower@, start as int, n + 1) is None);
                }
                go = false;
            } else {
                end = end + 1;
            }
        }
        start = start + 1;
    }
    None
}

/// A position as a number.
pub open spec fn opt_int(v: Option<usize>) -> Option<int> {
    match v {
        Some(x) => Some(x as int),
        None => None,
    }
}

/// The end of the first occurrence of `needle` in `haystack` from `start` on,
/// capitals and small letters alike.
fn find_case_insensitive_end(haystack: &Vec<char>, start: usize, needle: &str) -> (r: Option<usize>)
    ensures
        opt_int(r) == caseless_end(haystack@, start as int, needle@),
{
    let p = chars_of(needle);
    if p.len() == 0 || start >= haystack.len() {
        return None;
    }
    proof {
        assert(p@.subrange(0, p@.len() as int) =~= p@);
    }
    if ascii_from(&p, 0) && ascii_from(haystack, start) {
        let mut i: usize = start;
        while i < haystack.len()
            invariant
                p@ == needle@,
                p@.len() > 0,
                start <= i <= haystack@.len(),
                start < haystack@.len(),
                caseless_end(haystack@, start as int, needle@) == ascii_end(
                    haystack@,
                    p@,
                    start as int,
                ),
                ascii_end(haystack@, p@, i as int) == ascii_end(haystack@, p@, start as int),
            decreases haystack@.len() - i,
        {
            if ascii_matches_at(haystack, &p, i) {
                return Some(i + p.len());
            }
            i = i + 1;
        }
        return None;
    }
    let rest = string_of(haystack.as_slice(), start, haystack.len());
    let needle_lower = to_lowercase(needle);
    let rest_lower = to_lowercase(rest.as_str());
    if contains_text(&chars_of(rest_lower.as_str()), needle_lower.as_str()) {
        scan_unicode_match(haystack, needle_lower.as_str(), start)
    } else {
        None
    }
}

/// The models of several markups.
pub open spec fn markup_views(v: Seq<SpecialMarkup>) -> Seq<MarkupView> {
    v.map_values(|m: SpecialMarkup| m@)
}

/// A markup that is its start alone.
fn single_markup(start: &'static str) -> (r: SpecialMarkup)
    ensures
        r@ == single(start@),
{
    SpecialMarkup { start: Pattern::Regex(start), end: None, no_spans: true, no_jump: true }
}

/// A markup from a start to an end.
fn block_markup(start: Pattern, end: Pattern, no_spans: bool) -> (r: SpecialMarkup)
    ensures
        r@ == block(start@, end@, no_spans),
{
    SpecialMarkup { start, end: Some(end), no_spans, no_jump: false }
}

/// The markups in order.
pub fn special_markups() -> (r: Vec<SpecialMarkup>)
    ensures
        markup_views(r@) == markups(),
{
    let mut v: Vec<SpecialMarkup> = Vec::new();
    v.push(block_markup(Pattern::Plain("[["), Pattern::Plain("]]"), false));
    v.push(block_markup(Pattern::Plain("["), Pattern::Plain("]"), false));
    v.push(block_markup(Pattern::Plain("{{"), Pattern::Plain("}}"), true));
    v.push(single_markup(NOWIKI_PATTERN));
    v.push(
        block_markup(
            Pattern::Regex(VERBATIM_PATTERN),
            Pattern::Regex(VERBATIM_END_PATTERN),
            true,
        ),
    );
    v.push(block_markup(Pattern::Regex(TAG_PATTERN), Pattern::Plain(">"), true));
    v.push(single_markup(HEADING_PATTERN));
    v.push(block_markup(Pattern::Regex(DEFINITION_PATTERN), Pattern::Plain("\\:"), true));
    v.push(single_markup(BULLET_PATTERN));
    v.push(single_markup(RULE_PATTERN));
    v.push(block_markup(Pattern::Plain("{|"), Pattern::Plain("|}"), true));
    v.push(single_markup(BREAK_PATTERN));
    v.push(single_markup(ENTITY_PATTERN));
    v.push(single_markup(MAGIC_PATTERN));
    v.push(single_markup(APOSTROPHE_PATTERN));
    proof {
        assert(markup_views(v@) =~= markups());
    }
    v
}

/// The patterns of the markups can be searched for.
pub open spec fn pattern_ok(p: PatternView) -> bool {
    match p {
        PatternView::Plain(l) => l.len() > 0,
        PatternView::Regex(r) => is_markup_pattern(r),
    }
}

proof fn lemma_markup_patterns(i: int)
    requires
        0 <= i < markups().len(),
    ensures
        pattern_ok(markups()[i].start),
        markups()[i].end is Some ==> pattern_ok(markups()[i].end->0),
{
    reveal_strlit("[[");
    reveal_strlit("]]");
    reveal_strlit("[");
    reveal_strlit("]");
    reveal_strlit("{{");
    reveal_strlit("}}");
    reveal_strlit(">");
    reveal_strlit("\\:");
    reveal_strlit("{|");
    reveal_strlit("|}");
}

/// A stretch of the source.
#[derive(Debug, Clone, Copy, PartialEq, Eq, Structural)]
pub struct Place {
    pub from: usize,
    pub to: usize,
}

/// A place as a stretch.
pub open spec fn opt_place(p: Option<Place>) -> Option<Stretch> {
    match p {
        Some(p) => Some(Stretch { from: p.from as int, to: p.to as int }),
        None => None,
    }
}

/// Where a pattern is first found at or after `pos`.
fn find_pattern(p: &Pattern, text: &Vec<char>, pos: usize) -> (r: Option<Place>)
    requires
        pattern_ok(p@),
    ensures
        opt_place(r) == found(p@, text@, pos as int),
{
    if pos >= text.len() {
        return None;
    }
    match p {
        Pattern::Plain(l) => {
            let lc = chars_of(l);
            let mut i: usize = pos;
            while i < text.len()
                invariant
                    pos <= i <= text@.len(),
                    pos < text@.len(),
                    lc@ == l@,
                    p@ == PatternView::Plain(l@),
                    first_at(text@, l@, i as int) == first_at(text@, l@, pos as int),
                decreases text@.len() - i,
            {
                if matches_at(text.as_slice(), lc.as_slice(), i) {
                    return Some(Place { from: i, to: i + lc.len() });
                }
                i = i + 1;
            }
            None
        },
        Pattern::Regex(re) => {
            let rest = string_of(text.as_slice(), pos, text.len());
            match regex_find(re, rest.as_str()) {
                Some((before, at)) => {
                    let b: usize = chars_of(before.as_str()).len();
                    let n: usize = chars_of(at.as_str()).len();
                    proof {
                        assert((before@ + at@).len() <= rest@.len());
                    }
                    Some(Place { from: pos + b, to: pos + b + n })
                },
                None => None,
            }
        },
    }
}

/// A markup found: which one, where, and how long its start is.
#[derive(Debug, Clone, Copy, PartialEq, Eq, Structural)]
pub struct SpecialElem {
    pub markup_idx: usize,
    pub start: usize,
    pub start_len: usize,
}

impl View for SpecialElem {
    type V = ElemView;

    open spec fn view(&self) -> ElemView {
        ElemView {
            markup: self.markup_idx as int,
            start: self.start as int,
            len: self.start_len as int,
        }
    }
}

/// The model of a markup that may be missing.
pub open spec fn opt_elem(e: Option<SpecialElem>) -> Option<ElemView> {
    match e {
        Some(e) => Some(e@),
        None => None,
    }
}

/// The positions in a set.
pub open spec fn positions(s: Set<usize>) -> Set<int> {
    Set::new(|i: int| 0 <= i <= usize::MAX && s.contains(i as usize))
}

/// What to do next, by where the source ends, how far it is put out, where the token
/// at hand ends, whether markup may be gone into, where the markup around ends and
/// where the next one starts.
pub fn decide(
    len: usize,
    pos: usize,
    token_end: Option<usize>,
    no_jump: bool,
    elem_end: Option<Place>,
    next: Option<usize>,
) -> (r: Action)
    ensures
        r == action(
            len as int,
            pos as int,
            opt_int(token_end),
            no_jump,
            opt_place(elem_end),
            opt_int(next),
        ),
{
    if pos >= len {
        return Action::Finish;
    }
    let token_end: usize = match token_end {
        Some(e) => e,
        None => {
            return Action::Flush;
        },
    };
    if let Some(n) = next {
        let inside = match elem_end {
            Some(e) => pos < e.from && n < e.from,
            None => true,
        };
        if !no_jump && n < token_end && inside {
            return Action::Jump;
        }
    }
    match elem_end {
        Some(e) => if e.to < token_end {
            Action::Leave
        } else {
            Action::Advance
        },
        None => Action::Advance,
    }
}

/// `best`, or the markup `i`, found at `here`, where it starts earlier and was not
/// gone into.
pub fn prefer_earlier(
    here: Option<Place>,
    jumped: &HashSet<usize>,
    i: usize,
    best: Option<SpecialElem>,
) -> (r: Option<SpecialElem>)
    requires
        here is Some ==> here->0.from <= here->0.to,
    ensures
        opt_elem(r) == earlier(opt_place(here), positions(jumped@), i as int, opt_elem(best)),
{
    match here {
        Some(p) => {
            if jumped.contains(&p.from) {
                return best;
            }
            if let Some(b) = best {
                if b.start <= p.from {
                    return best;
                }
            }
            Some(SpecialElem { markup_idx: i, start: p.from, start_len: p.to - p.from })
        },
        None => best,
    }
}

/// A markup that is gone into, or the source as a whole.
struct Frame {
    elem: Option<SpecialElem>,
    no_jump: bool,
    elem_end: Option<Place>,
    next: Option<SpecialElem>,
}

impl View for Frame {
    type V = FrameView;

    closed spec fn view(&self) -> FrameView {
        FrameView {
            elem: opt_elem(self.elem),
            no_jump: self.no_jump,
            elem_end: opt_place(self.elem_end),
            next: opt_elem(self.next),
        }
    }
}

spec fn frames_of(v: Seq<Frame>) -> Seq<FrameView> {
    v.map_values(|f: Frame| f@)
}

/// The editors that the map knows are those found, each at its place.
spec fn places_ok(es: Seq<PresentView>, m: Map<Seq<char>, usize>) -> bool {
    forall|k: Seq<char>|
        (#[trigger] m.contains_key(k) <==> editor_place(es, k, 0) < es.len()) && (m.contains_key(k)
            ==> m[k] == editor_place(es, k, 0))
}

/// No editor has more than `n` tokens.
spec fn counts_below(es: Seq<PresentView>, n: int) -> bool {
    forall|i: int| 0 <= i < es.len() ==> (#[trigger] es[i]).token_count <= n
}

/// A search under way.
struct Parser<'a> {
    text: Vec<char>,
    tokens: &'a [WikitextToken],
    markups: Vec<SpecialMarkup>,
    token_index: usize,
    current_token_end: Option<usize>,
    pos: usize,
    open_span: bool,
    jumped_elems: HashSet<usize>,
    out: Vec<char>,
    editors: Vec<PresentEditorEntry>,
    /// Where each editor stands among those found.
    places: StringHashMap<usize>,
    pieces: Ghost<Seq<Piece>>,
}

pub(crate) proof fn lemma_editor_place(es: Seq<PresentView>, editor: Seq<char>, k: int)
    requires
        0 <= k <= es.len(),
    ensures
        k <= editor_place(es, editor, k) <= es.len(),
        editor_place(es, editor, k) < es.len() ==> es[editor_place(es, editor, k)].editor == editor,
        forall|i: int| k <= i < editor_place(es, editor, k) ==> es[i].editor != editor,
    decreases es.len() - k,
{
    if k < es.len() && es[k].editor != editor {
        lemma_editor_place(es, editor, k + 1);
    }
}

/// Two lists with the same editors, but for one more at the end of the second,
/// agree on where an editor of the first stands.
proof fn lemma_same_place(es: Seq<PresentView>, fs: Seq<PresentView>, editor: Seq<char>, k: int)
    requires
        0 <= k <= es.len() <= fs.len() <= es.len() + 1,
        forall|i: int| 0 <= i < es.len() ==> (#[trigger] fs[i]).editor == es[i].editor,
    ensures
        editor_place(fs, editor, k) == (if editor_place(es, editor, k) < es.len() {
            editor_place(es, editor, k)
        } else if fs.len() > es.len() && fs[es.len() as int].editor == editor {
            es.len() as int
        } else {
            fs.len() as int
        }),
    decreases es.len() - k,
{
    if k < es.len() {
        assert(fs[k].editor == es[k].editor);
        if es[k].editor != editor {
            lemma_same_place(es, fs, editor, k + 1);
        } else {
            lemma_editor_place(es, editor, k);
        }
    } else {
        reveal_with_fuel(editor_place, 2);
    }
}

proof fn lemma_jumped(s: Set<usize>, x: usize)
    ensures
        positions(s.insert(x)) == positions(s).insert(x as int),
{
    assert(positions(s.insert(x)) =~= positions(s).insert(x as int));
}

impl<'a> Parser<'a> {
    spec fn job(self) -> Job {
        Job { text: self.text@, tokens: sought(self.tokens@) }
    }

    spec fn progress(self) -> Progress {
        Progress {
            pos: self.pos as int,
            index: self.token_index as int,
            token_end: opt_int(self.current_token_end),
            open: self.open_span,
            jumped: positions(self.jumped_elems@),
            pieces: self.pieces@,
            editors: present(self.editors@),
        }
    }

    /// What is written is what the pieces say, and the editors are where the map
    /// says.
    spec fn ok(self) -> bool {
        &&& self.out@ == rendered(self.pieces@)
        &&& markup_views(self.markups@) == markups()
        &&& places_ok(present(self.editors@), self.places@)
        &&& progress_ok(self.job(), self.progress())
    }

    /// A search not yet begun.
    fn new(wikitext: &str, tokens: &'a [WikitextToken]) -> (r: Self)
        ensures
            r.job() == (Job { text: breaks_held(wikitext@), tokens: sought(tokens@) }),
            r.ok(),
            r.progress() == (Progress {
                pos: 0,
                index: 0,
                token_end: None,
                open: false,
                jumped: Set::empty(),
                pieces: Seq::empty(),
                editors: Seq::empty(),
            }),
    {
        let c = chars_of(wikitext);
        proof {
            reveal_strlit("\r\n");
            reveal_strlit("\n");
            reveal_strlit("\r");
        }
        let one = replace_text(&c, "\r\n", REGEX_HELPER_PATTERN);
        let two = replace_text(&one, "\n", REGEX_HELPER_PATTERN);
        let text = replace_text(&two, "\r", REGEX_HELPER_PATTERN);
        let r = Parser {
            text,
            tokens,
            markups: special_markups(),
            token_index: 0,
            current_token_end: None,
            pos: 0,
            open_span: false,
            jumped_elems: HashSet::new(),
            out: Vec::new(),
            editors: Vec::new(),
            places: StringHashMap::new(),
            pieces: Ghost(Seq::empty()),
        };
        proof {
            assert(positions(r.jumped_elems@) =~= Set::empty());
            assert(present(r.editors@) =~= Seq::empty());
        }
        r
    }

    /// Counts a token for its editor.
    fn count_editor(&mut self, index: usize)
        requires
            old(self).ok(),
            index < old(self).tokens@.len(),
            counts_below(present(old(self).editors@), index as int),
        ensures
            final(self).ok(),
            final(self).job() == old(self).job(),
            final(self).progress() == (Progress {
                editors: editor_counted(
                    old(self).progress().editors,
                    old(self).job().tokens[index as int],
                ),
                ..old(self).progress()
            }),
            counts_below(present(final(self).editors@), index + 1),
    {
        let ghost es = present(self.editors@);
        let ghost me = *self;
        let ghost t = self.tokens@[index as int]@;
        proof {
            assert(self.job().tokens[index as int] == t);
            assert(self.places@.contains_key(t.editor) <==> editor_place(es, t.editor, 0)
                < es.len());
        }
        let place: Option<usize> = match self.places.get(self.tokens[index].editor.as_str()) {
            Some(p) => Some(*p),
            None => None,
        };
        proof {
            lemma_editor_place(es, t.editor, 0);
        }
        match place {
            Some(p) => {
                proof {
                    assert(es[p as int] == self.editors@[p as int]@);
                    assert(es[p as int].token_count <= index);
                }
                let count: usize = self.editors[p].token_count;
                let entry = &mut self.editors[p];
                entry.token_count = count + 1;
                proof {
                    let fs = present(self.editors@);
                    assert(fs =~= editor_counted(es, t));
                    assert forall|k: Seq<char>|
                        (#[trigger] self.places@.contains_key(k) <==> editor_place(fs, k, 0)
                            < fs.len()) && (self.places@.contains_key(k) ==> self.places@[k]
                            == editor_place(fs, k, 0)) by {
                        assert(me.places@.contains_key(k) <==> editor_place(es, k, 0) < es.len());
                        lemma_same_place(es, fs, k, 0);
                    }
                }
            },
            None => {
                let at: usize = self.editors.len();
                let editor = self.tokens[index].editor.clone();
                let class_name = self.tokens[index].class_name.clone();
                self.places.insert(self.tokens[index].editor.clone(), at);
                self.editors.push(PresentEditorEntry { editor, class_name, token_count: 1 });
                proof {
                    let fs = present(self.editors@);
                    assert(fs =~= editor_counted(es, t));
                    assert forall|k: Seq<char>|
                        (#[trigger] self.places@.contains_key(k) <==> editor_place(fs, k, 0)
                            < fs.len()) && (self.places@.contains_key(k) ==> self.places@[k]
                            == editor_place(fs, k, 0)) by {
                        assert(me.places@.contains_key(k) <==> editor_place(es, k, 0) < es.len());
                        lemma_same_place(es, fs, k, 0);
                        lemma_editor_place(es, k, 0);
                    }
                }
            },
        }
    }

    /// Moves on to the next token that is found.
    fn set_token(&mut self)
        requires
            old(self).ok(),
            old(self).current_token_end is None,
            counts_below(present(old(self).editors@), old(self).token_index as int),
        ensures
            final(self).ok(),
            final(self).job() == old(self).job(),
            final(self).progress() == token_set(old(self).job(), old(self).progress()),
            counts_below(present(final(self).editors@), final(self).token_index + 1),
    {
        let ghost j = self.job();
        let ghost goal = token_set(self.job(), self.progress());
        while self.token_index < self.tokens.len()
            invariant
                self.ok(),
                self.job() == j,
                j == old(self).job(),
                goal == token_set(old(self).job(), old(self).progress()),
                self.current_token_end is None,
                counts_below(present(self.editors@), self.token_index as int),
                token_set(j, self.progress()) == goal,
            decreases self.tokens@.len() - self.token_index,
        {
            let index: usize = self.token_index;
            let end = find_case_insensitive_end(
                &self.text,
                self.pos,
                self.tokens[index].str.as_str(),
            );
            proof {
                assert(j.tokens[index as int] == self.tokens@[index as int]@);
                lemma_caseless(j.text, self.pos as int, j.tokens[index as int].str);
            }
            if let Some(e) = end {
                self.count_editor(index);
                self.current_token_end = Some(e);
                return;
            }
            self.token_index = index + 1;
        }
    }

    /// Puts out the source up to `to`.
    fn push_text(&mut self, to: usize)
        requires
            old(self).ok(),
            old(self).pos <= to <= old(self).text@.len(),
            old(self).current_token_end is Some ==> to <= old(self).current_token_end->0,
        ensures
            final(self).job() == old(self).job(),
            final(self).progress() == put_out(old(self).job(), old(self).progress(), to as int),
            final(self).out@ == rendered(final(self).pieces@),
            final(self).markups == old(self).markups,
            final(self).places == old(self).places,
    {
        let ghost me = *self;
        let mut i: usize = self.pos;
        while i < to
            invariant
                me.pos <= i <= to <= me.text@.len(),
                self.text == me.text,
                self.tokens == me.tokens,
                self.markups == me.markups,
                self.places == me.places,
                self.pieces == me.pieces,
                self.progress() == me.progress(),
                self.out@ == me.out@ + me.text@.subrange(me.pos as int, i as int),
            decreases to - i,
        {
            let c: char = self.text[i];
            self.out.push(c);
            proof {
                assert(self.out@ =~= me.out@ + me.text@.subrange(me.pos as int, i + 1));
            }
            i = i + 1;
        }
        self.pos = to;
        proof {
            let p = Piece::Text(me.text@.subrange(me.pos as int, to as int));
            lemma_push(me.pieces@, p);
            self.pieces = Ghost(me.pieces@.push(p));
        }
    }

    /// Closes the span that is open.
    fn close_span(&mut self)
        requires
            old(self).out@ == rendered(old(self).pieces@),
        ensures
            final(self).job() == old(self).job(),
            final(self).tokens == old(self).tokens,
            final(self).progress() == closed(old(self).progress()),
            final(self).out@ == rendered(final(self).pieces@),
            final(self).markups == old(self).markups,
            final(self).places == old(self).places,
    {
        if self.open_span {
            push_str(&mut self.out, "</span>");
            self.open_span = false;
            proof {
                lemma_push(self.pieces@, Piece::Close);
                self.pieces = Ghost(self.pieces@.push(Piece::Close));
            }
        }
    }

    /// Closes the span that is open and opens one for the token at hand where it is
    /// wanted.
    fn add_spans(&mut self, new_span: bool)
        requires
            old(self).out@ == rendered(old(self).pieces@),
            old(self).token_index < old(self).tokens@.len(),
        ensures
            final(self).job() == old(self).job(),
            final(self).progress() == respanned(old(self).job(), old(self).progress(), new_span),
            final(self).out@ == rendered(final(self).pieces@),
            final(self).markups == old(self).markups,
            final(self).places == old(self).places,
    {
        self.close_span();
        if new_span {
            let index: usize = self.token_index;
            let ghost before = self.out@;
            let ghost class = self.tokens@[index as int].class_name@;
            push_str(&mut self.out, "<span class=\"editor-token token-editor-");
            push_escaped_attr(self.tokens[index].class_name.as_str(), &mut self.out);
            push_str(&mut self.out, "\" id=\"token-");
            push_str(&mut self.out, decimal_text(index as u64).as_str());
            push_str(&mut self.out, "\">");
            self.open_span = true;
            proof {
                let p = Piece::Open(class, index as int);
                assert(self.job().tokens[index as int].class_name == class);
                lemma_push(self.pieces@, p);
                assert(self.out@ =~= before + piece_text(p));
                self.pieces = Ghost(self.pieces@.push(p));
            }
        }
    }

    /// The markup that comes next.
    fn find_next_special_markup(&self) -> (r: Option<SpecialElem>)
        requires
            self.ok(),
        ensures
            opt_elem(r) == next_markup(
                self.text@,
                self.pos as int,
                positions(self.jumped_elems@),
                0,
                None,
            ),
    {
        let ghost jumped = positions(self.jumped_elems@);
        let mut best: Option<SpecialElem> = None;
        let mut i: usize = 0;
        while i < self.markups.len()
            invariant
                markup_views(self.markups@) == markups(),
                jumped == positions(self.jumped_elems@),
                i <= self.markups@.len(),
                next_markup(self.text@, self.pos as int, jumped, i as int, opt_elem(best))
                    == next_markup(self.text@, self.pos as int, jumped, 0, None),
            decreases self.markups@.len() - i,
        {
            proof {
                lemma_markup_patterns(i as int);
                assert(markups()[i as int] == self.markups@[i as int]@);
                lemma_found(markups()[i as int].start, self.text@, self.pos as int);
            }
            let here = find_pattern(&self.markups[i].start, &self.text, self.pos);
            best = prefer_earlier(here, &self.jumped_elems, i, best);
            i = i + 1;
        }
        best
    }

    /// Where a markup ends.
    fn special_elem_end(&self, e: SpecialElem) -> (r: Place)
        requires
            self.ok(),
            elem_ok(self.job(), e@),
        ensures
            opt_place(Some(r)) == Some(elem_end(self.text@, self.pos as int, e@)),
    {
        proof {
            lemma_markup_patterns(e.markup_idx as int);
            assert(markups()[e.markup_idx as int] == self.markups@[e.markup_idx as int]@);
        }
        let n: usize = self.text.len();
        match &self.markups[e.markup_idx].end {
            None => Place { from: e.start, to: e.start + e.start_len },
            Some(p) => match find_pattern(p, &self.text, self.pos) {
                Some(at) => at,
                None => Place { from: n, to: n },
            },
        }
    }

    /// The frame of a markup just gone into.
    fn enter(&self, e: SpecialElem) -> (r: Frame)
        requires
            self.ok(),
            elem_ok(self.job(), e@),
        ensures
            r@ == entered(self.job(), self.progress(), e@),
    {
        proof {
            assert(markups()[e.markup_idx as int] == self.markups@[e.markup_idx as int]@);
        }
        let no_jump = self.markups[e.markup_idx].no_jump;
        let elem_end = self.special_elem_end(e);
        let next = if no_jump {
            None
        } else {
            self.find_next_special_markup()
        };
        Frame { elem: Some(e), no_jump, elem_end: Some(elem_end), next }
    }

    /// Leaves the innermost frame.
    fn leave(&self, frames: &mut Vec<Frame>)
        requires
            self.ok(),
            old(frames)@.len() > 0,
            forall|i: int|
                0 <= i < old(frames)@.len() ==> frame_ok(
                    self.job(),
                    #[trigger] frames_of(old(frames)@)[i],
                ),
        ensures
            frames_of(final(frames)@) == left(self.job(), self.progress(), frames_of(old(frames)@)),
    {
        let ghost fs = frames_of(frames@);
        frames.pop();
        proof {
            assert(frames_of(frames@) =~= fs.drop_last());
        }
        if frames.len() == 0 {
            return;
        }
        let last: usize = frames.len() - 1;
        proof {
            assert(frame_ok(self.job(), fs[last as int]));
            assert(fs[last as int] == frames@[last as int]@);
        }
        let elem_end = match frames[last].elem {
            Some(e) => Some(self.special_elem_end(e)),
            None => None,
        };
        let next = self.find_next_special_markup();
        let f = &mut frames[last];
        f.elem_end = elem_end;
        f.next = next;
        proof {
            assert(frames_of(frames@) =~= left(self.job(), self.progress(), fs));
        }
    }

    /// Searches the source from beginning to end.
    #[verifier::rlimit(40)]
    fn run(&mut self)
        requires
            old(self).ok(),
            old(self).progress() == (Progress {
                pos: 0,
                index: 0,
                token_end: None,
                open: false,
                jumped: Set::empty(),
                pieces: Seq::empty(),
                editors: Seq::empty(),
            }),
        ensures
            final(self).ok(),
            final(self).job() == old(self).job(),
            final(self).progress() == marked(old(self).job()),
    {
        let ghost j = self.job();
        self.set_token();
        proof {
            lemma_begun(j);
        }
        let next = self.find_next_special_markup();
        let mut frames: Vec<Frame> = Vec::new();
        frames.push(Frame { elem: None, no_jump: false, elem_end: None, next });
        proof {
            assert(frames_of(frames@) =~= seq![outermost(j, begun(j))]);
        }
        while frames.len() > 0
            invariant
                self.ok(),
                self.job() == j,
                search_ok(j, self.progress(), frames_of(frames@)),
                searched(j, self.progress(), frames_of(frames@)) == marked(j),
                counts_below(present(self.editors@), self.token_index + 1),
            decreases
                    j.text.len() - self.progress().jumped.len(),
                    j.tokens.len() - self.progress().index,
                    frames@.len(),
        {
            let ghost s = self.progress();
            let ghost fs = frames_of(frames@);
            proof {
                lemma_step_decreases(j, s, fs);
                assert(frame_ok(j, fs.last()));
                assert(fs.last() == frames@.last()@);
                assert(searched(j, s, fs) == searched(j, step(j, s, fs).0, step(j, s, fs).1));
            }
            let last: usize = frames.len() - 1;
            let outer = frames[last].elem.is_none();
            let next_start: Option<usize> = match frames[last].next {
                Some(e) => Some(e.start),
                None => None,
            };
            let act = decide(
                self.text.len(),
                self.pos,
                self.current_token_end,
                frames[last].no_jump,
                frames[last].elem_end,
                next_start,
            );
            proof {
                assert(act == frame_action(j, s, fs.last()));
            }
            match act {
                Action::Finish => {
                    self.close_span();
                    self.leave(&mut frames);
                },
                Action::Flush => {
                    self.push_text(self.text.len());
                    self.close_span();
                    self.leave(&mut frames);
                },
                Action::Jump => {
                    if let Some(e) = frames[last].next {
                        let ghost seen = self.jumped_elems@;
                        self.jumped_elems.insert(e.start);
                        proof {
                            lemma_jumped(seen, e.start);
                            assert(markups()[e.markup_idx as int] == self.markups@[e.markup_idx as int]@);
                        }
                        if outer {
                            self.add_spans(!self.markups[e.markup_idx].no_spans);
                        }
                        let f = self.enter(e);
                        frames.push(f);
                        proof {
                            assert(frames_of(frames@) =~= fs.push(f@));
                        }
                    }
                },
                Action::Leave => {
                    if let Some(at) = frames[last].elem_end {
                        self.push_text(at.to);
                        self.leave(&mut frames);
                    }
                },
                Action::Advance => {
                    if let Some(e) = self.current_token_end {
                        if outer {
                            self.add_spans(true);
                        }
                        self.push_text(e);
                        self.current_token_end = None;
                        let ghost put = self.progress();
                        assert(self.token_index < self.tokens.len());
                        self.token_index = self.token_index + 1;
                        proof {
                            lemma_token_set_anew(
                                j,
                                Progress {
                                    index: s.index + 1,
                                    token_end: s.token_end,
                                    ..put
                                },
                            );
                        }
                        self.set_token();
                    }
                },
            }
        }
    }

    /// The source with spans, and the editors found.
    fn finish(self) -> (r: InjectionResult)
        requires
            self.ok(),
        ensures
            r.wikitext@ == replaced(rendered(self.pieces@), REGEX_HELPER_PATTERN@, "\n"@),
            present(r.present_editors@) == ranked(
                present(self.editors@),
                self.editors@.len() as int,
            ),
    {
        proof {
            reveal_strlit("WIKICOLORLB");
        }
        let out = replace_text(&self.out, REGEX_HELPER_PATTERN, "\n");
        InjectionResult {
            wikitext: string_from(&out),
            present_editors: rank_editors(&self.editors),
        }
    }
}

/// The editors, most tokens first; of equals, the first found first.
pub(crate) fn rank_editors(editors: &Vec<PresentEditorEntry>) -> (r: Vec<PresentEditorEntry>)
    ensures
        present(r@) == ranked(present(editors@), editors@.len() as int),
{
    let ghost es = present(editors@);
    let mut out: Vec<PresentEditorEntry> = Vec::new();
    let mut k: usize = 0;
    while k < editors.len()
        invariant
            k <= editors@.len(),
            es == present(editors@),
            out@.len() == k,
            present(out@) == ranked(es, k as int),
        decreases editors@.len() - k,
    {
        let ghost before = present(out@);
        let count: usize = editors[k].token_count;
        let mut at: usize = 0;
        while at < out.len() && out[at].token_count >= count
            invariant
                at <= out@.len(),
                before == present(out@),
                rank_place(before, count as int, at as int) == rank_place(before, count as int, 0),
            decreases out@.len() - at,
        {
            proof {
                assert(before[at as int] == out@[at as int]@);
            }
            at = at + 1;
        }
        proof {
            if at < out@.len() {
                assert(before[at as int] == out@[at as int]@);
            }
            assert(rank_place(before, count as int, 0) == at);
        }
        let e = PresentEditorEntry {
            editor: editors[k].editor.clone(),
            class_name: editors[k].class_name.clone(),
            token_count: count,
        };
        out.insert(at, e);
        proof {
            assert(es[k as int] == editors@[k as int]@);
            assert(present(out@) =~= before.insert(at as int, es[k as int]));
        }
        k = k + 1;
    }
    out
}

/// Marks the author of each token in the source of a page.
pub fn inject_spans_into_wikitext(wikitext: &str, tokens: &[WikitextToken]) -> (r: InjectionResult)
    ensures
        r@ == injected(wikitext@, sought(tokens@)),
{
    let mut parser = Parser::new(wikitext, tokens);
    parser.run();
    parser.finish()
}

/// `es` has each editor of `of` once, and none else.
pub open spec fn same_editors(es: Seq<PresentView>, of: Seq<PresentView>) -> bool {
    es.to_multiset() == of.to_multiset()
}

/// Those with more tokens stand first.
pub open spec fn most_first(es: Seq<PresentView>) -> bool {
    forall|i: int, k: int| 0 <= i <= k < es.len() ==> es[i].token_count >= es[k].token_count
}

proof fn lemma_rank_place(es: Seq<PresentView>, count: int, k: int)
    requires
        0 <= k <= es.len(),
    ensures
        k <= rank_place(es, count, k) <= es.len(),
        forall|i: int| k <= i < rank_place(es, count, k) ==> es[i].token_count >= count,
        rank_place(es, count, k) < es.len() ==> es[rank_place(es, count, k)].token_count < count,
    decreases es.len() - k,
{
    if k < es.len() && es[k].token_count >= count {
        lemma_rank_place(es, count, k + 1);
    }
}

/// The ranking of the editors found has each of them once, those with more tokens
/// first.
pub proof fn ranking_is_sorted(es: Seq<PresentView>)
    ensures
        most_first(ranked(es, es.len() as int)),
        same_editors(ranked(es, es.len() as int), es),
{
    lemma_ranked(es, es.len() as int);
    assert(es.take(es.len() as int) =~= es);
}

proof fn lemma_ranked(es: Seq<PresentView>, k: int)
    requires
        0 <= k <= es.len(),
    ensures
        most_first(ranked(es, k)),
        same_editors(ranked(es, k), es.take(k)),
    decreases k,
{
    broadcast use vstd::seq_lib::group_to_multiset_ensures;

    if k > 0 {
        lemma_ranked(es, k - 1);
        let before = ranked(es, k - 1);
        let at = rank_place(before, es[k - 1].token_count, 0);
        lemma_rank_place(before, es[k - 1].token_count, 0);
        let now = ranked(es, k);
        assert forall|i: int, m: int| 0 <= i <= m < now.len() implies now[i].token_count
            >= now[m].token_count by {
            let i0 = if i < at {
                i
            } else {
                i - 1
            };
            let m0 = if m < at {
                m
            } else {
                m - 1
            };
            if i != at && m != at {
                assert(before[i0].token_count >= before[m0].token_count);
            }
        }
        assert(es.take(k) =~= es.take(k - 1).push(es[k - 1]));
    } else {
        assert(es.take(0) =~= Seq::empty());
    }
}

/// No two entries are of the same editor.
pub open spec fn told_once(es: Seq<PresentView>) -> bool {
    forall|i: int, k: int| 0 <= i < k < es.len() ==> es[i].editor != es[k].editor
}

/// How many tokens the editors have together.
pub open spec fn tokens_counted(es: Seq<PresentView>) -> int
    decreases es.len(),
{
    if es.len() == 0 {
        0
    } else {
        tokens_counted(es.drop_last()) + es.last().token_count
    }
}

pub(crate) proof fn lemma_counted_insert(es: Seq<PresentView>, at: int, e: PresentView)
    requires
        0 <= at <= es.len(),
    ensures
        tokens_counted(es.insert(at, e)) == tokens_counted(es) + e.token_count,
    decreases es.len(),
{
    let more = es.insert(at, e);
    if at == es.len() {
        assert(more.drop_last() =~= es);
    } else {
        assert(more.drop_last() =~= es.drop_last().insert(at, e));
        assert(more.last() == es.last());
        lemma_counted_insert(es.drop_last(), at, e);
    }
}

proof fn lemma_counted_update(es: Seq<PresentView>, at: int, e: PresentView)
    requires
        0 <= at < es.len(),
    ensures
        tokens_counted(es.update(at, e)) == tokens_counted(es) - es[at].token_count
            + e.token_count,
    decreases es.len(),
{
    let now = es.update(at, e);
    if at == es.len() - 1 {
        assert(now.drop_last() =~= es.drop_last());
    } else {
        assert(now.drop_last() =~= es.drop_last().update(at, e));
        assert(now.last() == es.last());
        lemma_counted_update(es.drop_last(), at, e);
    }
}

/// One more token found is one more token counted.
pub(crate) proof fn lemma_editor_counted(es: Seq<PresentView>, t: SoughtView)
    requires
        told_once(es),
    ensures
        told_once(editor_counted(es, t)),
        tokens_counted(editor_counted(es, t)) == tokens_counted(es) + 1,
{
    let k = editor_place(es, t.editor, 0);
    let now = editor_counted(es, t);
    lemma_editor_place(es, t.editor, 0);
    if k < es.len() {
        lemma_counted_update(es, k, PresentView { token_count: es[k].token_count + 1, ..es[k] });
        assert forall|i: int, m: int| 0 <= i < m < now.len() implies now[i].editor
            != now[m].editor by {
            assert(now[i].editor == es[i].editor && now[m].editor == es[m].editor);
        }
    } else {
        assert(now.drop_last() =~= es);
    }
}

/// Every editor of a ranking is one of those ranked.
proof fn lemma_ranked_among(es: Seq<PresentView>, k: int, i: int) -> (m: int)
    requires
        0 <= k <= es.len(),
        0 <= i < ranked(es, k).len(),
    ensures
        0 <= m < k,
        ranked(es, k)[i] == es[m],
    decreases k,
{
    let before = ranked(es, k - 1);
    let at = rank_place(before, es[k - 1].token_count, 0);
    lemma_rank_place(before, es[k - 1].token_count, 0);
    if i == at {
        k - 1
    } else if i < at {
        lemma_ranked_among(es, k - 1, i)
    } else {
        lemma_ranked_among(es, k - 1, i - 1)
    }
}

/// Ranking tells each editor once, and counts as many tokens.
pub(crate) proof fn lemma_ranked_once(es: Seq<PresentView>, k: int)
    requires
        told_once(es),
        0 <= k <= es.len(),
    ensures
        told_once(ranked(es, k)),
        tokens_counted(ranked(es, k)) == tokens_counted(es.take(k)),
    decreases k,
{
    if k > 0 {
        let before = ranked(es, k - 1);
        let e = es[k - 1];
        let at = rank_place(before, e.token_count, 0);
        let now = ranked(es, k);
        lemma_rank_place(before, e.token_count, 0);
        lemma_ranked_once(es, k - 1);
        lemma_counted_insert(before, at, e);
        assert(es.take(k).drop_last() =~= es.take(k - 1));
        assert forall|i: int| 0 <= i < before.len() implies (#[trigger] before[i]).editor
            != e.editor by {
            let m = lemma_ranked_among(es, k - 1, i);
            assert(es[m].editor != es[k - 1].editor);
        }
        assert forall|i: int, m: int| 0 <= i < m < now.len() implies now[i].editor
            != now[m].editor by {
            let i0 = if i < at {
                i
            } else {
                i - 1
            };
            let m0 = if m < at {
                m
            } else {
                m - 1
            };
            if i == at {
                assert(now[m] == before[m0]);
            } else if m == at {
                assert(now[i] == before[i0]);
            } else {
                assert(now[i] == before[i0] && now[m] == before[m0]);
            }
        }
    }
}

/// What the search keeps: no editor is told twice, and no token counts twice.
spec fn editors_ok(s: Progress) -> bool {
    &&& told_once(s.editors)
    &&& tokens_counted(s.editors) <= s.index + if s.token_end is Some {
        1int
    } else {
        0
    }
}

proof fn lemma_set_editors(j: Job, s: Progress)
    requires
        told_once(s.editors),
        tokens_counted(s.editors) <= s.index,
    ensures
        editors_ok(token_set(j, s)),
    decreases j.tokens.len() - s.index,
{
    if 0 <= s.index < j.tokens.len() {
        lemma_editor_counted(s.editors, j.tokens[s.index]);
        if caseless_end(j.text, s.pos, j.tokens[s.index].str) is None {
            lemma_set_editors(j, Progress { index: s.index + 1, ..s });
        }
    }
}

proof fn lemma_searched_editors(j: Job, s: Progress, frames: Seq<FrameView>)
    requires
        search_ok(j, s, frames),
        editors_ok(s),
    ensures
        told_once(searched(j, s, frames).editors),
        tokens_counted(searched(j, s, frames).editors) <= j.tokens.len(),
    decreases j.text.len() - s.jumped.len(), j.tokens.len() - s.index, frames.len(),
{
    if frames.len() > 0 {
        let f = frames.last();
        lemma_step_decreases(j, s, frames);
        if frame_action(j, s, f) == Action::Advance {
            let t = if f.elem is None {
                respanned(j, s, true)
            } else {
                s
            };
            let u = put_out(j, t, s.token_end->0);
            lemma_set_editors(j, Progress { index: u.index + 1, ..u });
        }
        let (t, rest) = step(j, s, frames);
        lemma_searched_editors(j, t, rest);
    }
}

/// The editors of a marked page are told once each, and have no more tokens together
/// than were looked for.
pub proof fn editors_are_told_once(text: Seq<char>, tokens: Seq<SoughtView>)
    ensures
        told_once(injected(text, tokens).present_editors),
        tokens_counted(injected(text, tokens).present_editors) <= tokens.len(),
{
    let j = Job { text: breaks_held(text), tokens };
    let s = Progress {
        pos: 0,
        index: 0,
        token_end: None,
        open: false,
        jumped: Set::empty(),
        pieces: Seq::empty(),
        editors: Seq::empty(),
    };
    let es = marked(j).editors;
    lemma_begun(j);
    lemma_set_editors(j, s);
    lemma_searched_editors(j, begun(j), seq![outermost(j, begun(j))]);
    lemma_ranked_once(es, es.len() as int);
    assert(es.take(es.len() as int) =~= es);
}

/// What stands in an attribute cannot end it or begin a tag, and a text without such
/// characters stands there as it is.
pub proof fn attributes_hold_their_text(s: Seq<char>)
    ensures
        !attribute_text(s).contains('"'),
        !attribute_text(s).contains('<'),
        !attribute_text(s).contains('>'),
        (forall|i: int|
            0 <= i < s.len() ==> (#[trigger] s[i]) != '"' && s[i] != '<' && s[i] != '>' && s[i]
                != '&') ==> attribute_text(s) == s,
    decreases s.len(),
{
    reveal_strlit("&quot;");
    reveal_strlit("&amp;");
    reveal_strlit("&lt;");
    reveal_strlit("&gt;");
    if s.len() > 0 {
        let less = s.drop_last();
        let head = attribute_text(less);
        let last = attribute_char(s.last());
        let all = attribute_text(s);
        attributes_hold_their_text(less);
        assert forall|c: char| c == '"' || c == '<' || c == '>' implies !#[trigger] all.contains(
            c,
        ) by {
            if all.contains(c) {
                let i = choose|i: int| 0 <= i < all.len() && all[i] == c;
                if i < head.len() {
                    assert(head[i] == c);
                    assert(head.contains(c));
                } else {
                    assert(last[i - head.len()] == c);
                }
            }
        }
        if forall|i: int|
            0 <= i < s.len() ==> (#[trigger] s[i]) != '"' && s[i] != '<' && s[i] != '>' && s[i]
                != '&' {
            assert forall|i: int| 0 <= i < less.len() implies (#[trigger] less[i]) != '"'
                && less[i] != '<' && less[i] != '>' && less[i] != '&' by {
                assert(less[i] == s[i]);
            }
            assert(s[s.len() - 1] == s.last());
            assert(all =~= s);
        }
    } else {
        assert(attribute_text(s) =~= s);
    }
}

} // verus!
