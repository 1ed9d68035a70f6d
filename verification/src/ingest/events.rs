//! The stream of changes.
use crate::pipeline::opt_text;
use crate::text::{
    begins_with, chars_of, concat_text, first_solid, join_text, joined, push_all, same_text,
    string_of, texts,
};
use vstd::hash_set::StringHashSet;
use vstd::prelude::*;

verus! {

/// A change of an article.
#[derive(Debug)]
pub struct PageEdit {
    pub language: String,
    /// The wiki's database.
    pub wiki: String,
    pub page_id: u64,
    pub rev_id: u64,
    /// The revision before it; 0 for the first.
    pub parent_rev_id: u64,
    pub title: String,
    /// What the stream names the event by.
    pub sse_id: Option<String>,
}

/// The model of a change.
pub struct EditView {
    pub language: Seq<char>,
    pub wiki: Seq<char>,
    pub page_id: u64,
    pub rev_id: u64,
    pub parent_rev_id: u64,
    pub title: Seq<char>,
    pub sse_id: Option<Seq<char>>,
}

impl View for PageEdit {
    type V = EditView;

    open spec fn view(&self) -> EditView {
        EditView {
            language: self.language@,
            wiki: self.wiki@,
            page_id: self.page_id,
            rev_id: self.rev_id,
            parent_rev_id: self.parent_rev_id,
            title: self.title@,
            sse_id: opt_text(self.sse_id),
        }
    }
}

/// The database of a language's wiki.
pub open spec fn wiki_of(lang: Seq<char>) -> Seq<char> {
    lang + "wiki"@
}

/// The database of a language's wiki.
pub fn lang_to_wiki(lang: &str) -> (r: String)
    ensures
        r@ == wiki_of(lang@),
{
    concat_text(lang, "wiki")
}

/// A frame of the stream: its data, and what the stream names it by.
pub struct FrameView {
    pub data: Seq<char>,
    pub id: Option<Seq<char>>,
}

/// The model of a frame.
pub open spec fn frame_view(f: (String, Option<String>)) -> FrameView {
    FrameView { data: f.0@, id: opt_text(f.1) }
}

/// The models of several frames.
pub open spec fn frame_views(v: Seq<(String, Option<String>)>) -> Seq<FrameView> {
    v.map_values(|f: (String, Option<String>)| frame_view(f))
}

/// Puts the frames of the stream together from chunks.
pub struct SseFrameBuffer {
    /// The line that is not at its end.
    buf: Vec<char>,
    cur_data: Vec<String>,
    cur_id: Option<String>,
}

/// The model of what is put together.
pub struct BufferView {
    pub line: Seq<char>,
    pub data: Seq<Seq<char>>,
    pub id: Option<Seq<char>>,
}

impl View for SseFrameBuffer {
    type V = BufferView;

    closed spec fn view(&self) -> BufferView {
        BufferView {
            line: self.buf@,
            data: texts(self.cur_data@),
            id: opt_text(self.cur_id),
        }
    }
}

/// A line without the characters that end it.
pub open spec fn line_text(s: Seq<char>) -> Seq<char>
    decreases s.len(),
{
    if s.len() > 0 && (s.last() == '\r' || s.last() == '\n') {
        line_text(s.drop_last())
    } else {
        s
    }
}

/// A text without the space before it.
pub open spec fn trimmed_start(s: Seq<char>) -> Seq<char> {
    s.subrange(first_solid(s, 0), s.len() as int)
}

/// What a line does: a blank one ends the frame, if it has data; one of data or of an
/// id adds to it; any other is passed over.
pub open spec fn line_step(b: BufferView, line: Seq<char>) -> (BufferView, Seq<FrameView>) {
    if line.len() == 0 {
        let rest = BufferView { data: Seq::empty(), id: None, ..b };
        if b.data.len() > 0 {
            (rest, seq![FrameView { data: joined(b.data, "\n"@), id: b.id }])
        } else {
            (rest, Seq::empty())
        }
    } else if "data:"@.is_prefix_of(line) {
        let value = trimmed_start(line.subrange(5, line.len() as int));
        (BufferView { data: b.data.push(value), ..b }, Seq::empty())
    } else if "id:"@.is_prefix_of(line) {
        let value = trimmed_start(line.subrange(3, line.len() as int));
        (BufferView { id: Some(value), ..b }, Seq::empty())
    } else {
        (b, Seq::empty())
    }
}

/// The first line feed from `i` on.
pub open spec fn line_end(s: Seq<char>, i: int) -> Option<int>
    decreases s.len() - i,
{
    if i < 0 || i >= s.len() {
        None
    } else if s[i] == '\n' {
        Some(i)
    } else {
        line_end(s, i + 1)
    }
}

/// The lines that are at their end, dealt with, and the frames that they end, behind
/// `out`.
pub open spec fn drained(b: BufferView, out: Seq<FrameView>) -> (BufferView, Seq<FrameView>)
    decreases b.line.len(),
{
    match line_end(b.line, 0) {
        None => (b, out),
        Some(i) => if 0 <= i < b.line.len() {
            let line = line_text(b.line.subrange(0, i + 1));
            let rest = BufferView { line: b.line.subrange(i + 1, b.line.len() as int), ..b };
            let (next, frames) = line_step(rest, line);
            if next.line == rest.line {
                drained(next, out + frames)
            } else {
                (b, out)
            }
        } else {
            (b, out)
        },
    }
}

/// What a chunk makes of what is put together, and the frames that it ends.
pub open spec fn fed(b: BufferView, chunk: Seq<char>) -> (BufferView, Seq<FrameView>) {
    drained(BufferView { line: b.line + chunk, ..b }, Seq::empty())
}

/// The first line feed from `i` on.
fn find_line_end(s: &Vec<char>, from: usize) -> (r: Option<usize>)
    ensures
        match r {
            Some(i) => line_end(s@, from as int) == Some(i as int) && from <= i < s@.len(),
            None => line_end(s@, from as int) is None,
        },
{
    let mut i: usize = from;
    while i < s.len()
        invariant
            from <= i,
            line_end(s@, i as int) == line_end(s@, from as int),
        decreases s@.len() - i,
    {
        if s[i] == '\n' {
            return Some(i);
        }
        i = i + 1;
    }
    None
}

/// The length of a line without the characters that end it.
fn line_len(s: &Vec<char>, from: usize, to: usize) -> (r: usize)
    requires
        from <= to <= s@.len(),
    ensures
        from <= r <= to,
        line_text(s@.subrange(from as int, to as int)) == s@.subrange(from as int, r as int),
{
    let ghost all = s@.subrange(from as int, to as int);
    let mut n: usize = to;
    while n > from && (s[n - 1] == '\r' || s[n - 1] == '\n')
        invariant
            from <= n <= to <= s@.len(),
            all == s@.subrange(from as int, to as int),
            line_text(s@.subrange(from as int, n as int)) == line_text(all),
        decreases n - from,
    {
        proof {
            let cur = s@.subrange(from as int, n as int);
            assert(cur.drop_last() =~= s@.subrange(from as int, n - 1));
            assert(cur.last() == s@[n - 1]);
        }
        n = n - 1;
    }
    proof {
        let cur = s@.subrange(from as int, n as int);
        if n > from {
            assert(cur.last() == s@[n - 1]);
        }
    }
    n
}

/// What comes after the first `from` characters of a line, without the space before
/// it.
fn value_after(line: &Vec<char>, from: usize) -> (r: String)
    requires
        from <= line@.len(),
    ensures
        r@ == trimmed_start(line@.subrange(from as int, line@.len() as int)),
{
    let ghost rest = line@.subrange(from as int, line@.len() as int);
    let mut i: usize = from;
    while i < line.len() && line[i].is_whitespace()
        invariant
            from <= i <= line@.len(),
            rest == line@.subrange(from as int, line@.len() as int),
            first_solid(rest, i - from) == first_solid(rest, 0),
        decreases line@.len() - i,
    {
        proof {
            assert(rest[i - from] == line@[i as int]);
        }
        i = i + 1;
    }
    proof {
        if i < line@.len() {
            assert(rest[i - from] == line@[i as int]);
        }
        assert(first_solid(rest, 0) == i - from);
        assert(rest.subrange(i - from, rest.len() as int) =~= line@.subrange(
            i as int,
            line@.len() as int,
        ));
    }
    string_of(line.as_slice(), i, line.len())
}

impl SseFrameBuffer {
    /// Nothing put together yet.
    pub fn new() -> (r: Self)
        ensures
            r@ == (BufferView { line: Seq::empty(), data: Seq::empty(), id: None }),
    {
        let r = SseFrameBuffer { buf: Vec::new(), cur_data: Vec::new(), cur_id: None };
        proof {
            assert(texts(r.cur_data@) =~= Seq::empty());
        }
        r
    }

    /// Deals with a line.
    fn take_line(&mut self, line: &Vec<char>) -> (r: Option<(String, Option<String>)>)
        ensures
            ({
                let (next, frames) = line_step(old(self)@, line@);
                &&& final(self)@ == next
                &&& frames == (match r {
                    Some(f) => seq![frame_view(f)],
                    None => Seq::empty(),
                })
            }),
            final(self).buf == old(self).buf,
    {
        proof {
            reveal_strlit("data:");
            reveal_strlit("id:");
        }
        if line.len() == 0 {
            if self.cur_data.len() > 0 {
                let data = join_text(&self.cur_data, "\n");
                let id = self.cur_id.clone();
                self.cur_data = Vec::new();
                self.cur_id = None;
                proof {
                    assert(texts(self.cur_data@) =~= Seq::empty());
                }
                return Some((data, id));
            }
            self.cur_id = None;
            proof {
                assert(texts(self.cur_data@) =~= Seq::empty());
            }
            return None;
        }
        if begins_with(line, &chars_of("data:")) {
            let ghost before = texts(self.cur_data@);
            let value = value_after(line, 5);
            self.cur_data.push(value);
            proof {
                assert(texts(self.cur_data@) =~= before.push(value@));
            }
        } else if begins_with(line, &chars_of("id:")) {
            self.cur_id = Some(value_after(line, 3));
        }
        None
    }

    /// Takes a chunk, and gives the frames that it ends: their data, and what the
    /// stream names them by.
    pub fn feed_chunk(&mut self, chunk: &str) -> (r: Vec<(String, Option<String>)>)
        ensures
            fed(old(self)@, chunk@) == (final(self)@, frame_views(r@)),
    {
        let ghost start = self@;
        let mut all: Vec<char> = Vec::new();
        push_all(&mut all, self.buf.as_slice());
        push_all(&mut all, chars_of(chunk).as_slice());
        self.buf = Vec::new();
        let ghost goal = fed(start, chunk@);
        let n: usize = all.len();
        let mut out: Vec<(String, Option<String>)> = Vec::new();
        let mut from: usize = 0;
        let mut go: bool = true;
        proof {
            assert(all@ =~= start.line + chunk@);
            assert(all@.subrange(0, n as int) =~= all@);
            assert(frame_views(out@) =~= Seq::empty());
        }
        while go
            invariant
                n == all@.len(),
                from <= n,
                self.buf@.len() == 0,
                goal == (if go {
                    drained(
                        BufferView { line: all@.subrange(from as int, n as int), ..self@ },
                        frame_views(out@),
                    )
                } else {
                    (
                        BufferView { line: all@.subrange(from as int, n as int), ..self@ },
                        frame_views(out@),
                    )
                }),
            decreases
                    n - from + (if go {
                        1int
                    } else {
                        0
                    }),
        {
            let ghost rest = all@.subrange(from as int, n as int);
            proof {
                lemma_line_end_shift(all@, from as int, 0);
            }
            match find_line_end(&all, from) {
                None => {
                    go = false;
                },
                Some(end) => {
                    let ghost before = BufferView { line: rest, ..self@ };
                    let ghost frames = frame_views(out@);
                    let ghost after = all@.subrange(end + 1, n as int);
                    let stop = line_len(&all, from, end + 1);
                    let mut line: Vec<char> = Vec::new();
                    push_all(&mut line, chars_of(string_of(all.as_slice(), from, stop).as_str()).as_slice());
                    proof {
                        let i = end - from;
                        assert(rest.subrange(0, i + 1) =~= all@.subrange(from as int, end + 1));
                        assert(rest.subrange(i + 1, rest.len() as int) =~= after);
                        assert(line@ =~= line_text(rest.subrange(0, i + 1)));
                    }
                    let ghost mid = BufferView { line: after, ..before };
                    proof {
                        lemma_line_step(self@, mid, line@);
                    }
                    if let Some(f) = self.take_line(&line) {
                        out.push(f);
                        proof {
                            assert(frame_views(out@) =~= frames + seq![frame_view(f)]);
                        }
                    } else {
                        proof {
                            assert(frame_views(out@) =~= frames + Seq::<FrameView>::empty());
                        }
                    }
                    from = end + 1;
                },
            }
        }
        let mut left: Vec<char> = Vec::new();
        push_all(&mut left, chars_of(string_of(all.as_slice(), from, n).as_str()).as_slice());
        self.buf = left;
        proof {
            assert(self.buf@ =~= all@.subrange(from as int, n as int));
        }
        out
    }
}

proof fn lemma_line_end_shift(s: Seq<char>, from: int, i: int)
    requires
        0 <= from <= s.len(),
        0 <= i,
    ensures
        line_end(s.subrange(from, s.len() as int), i) == (match line_end(s, from + i) {
            Some(k) => Some(k - from),
            None => None,
        }),
        line_end(s, from + i) is Some ==> from + i <= line_end(s, from + i)->0 < s.len(),
    decreases s.len() - from - i,
{
    if from + i < s.len() {
        lemma_line_end_shift(s, from, i + 1);
    }
}

/// What a line does has nothing to do with the line after it.
proof fn lemma_line_step(a: BufferView, b: BufferView, line: Seq<char>)
    requires
        a.data == b.data,
        a.id == b.id,
    ensures
        line_step(b, line).1 == line_step(a, line).1,
        line_step(b, line).0 == (BufferView { line: b.line, ..line_step(a, line).0 }),
        line_step(a, line).0.line == a.line,
{
}

proof fn lemma_line_end_in(s: Seq<char>, t: Seq<char>, i: int)
    requires
        0 <= i <= s.len(),
    ensures
        line_end(s, i) is Some ==> line_end(s + t, i) == line_end(s, i) && i <= line_end(s, i)->0
            < s.len(),
    decreases s.len() - i,
{
    if i < s.len() && s[i] != '\n' {
        lemma_line_end_in(s, t, i + 1);
    }
}

proof fn lemma_drain_split(b: BufferView, more: Seq<char>, out: Seq<FrameView>)
    ensures
        ({
            let (c, frames) = drained(b, out);
            drained(BufferView { line: b.line + more, ..b }, out) == drained(
                BufferView { line: c.line + more, ..c },
                frames,
            )
        }),
    decreases b.line.len(),
{
    lemma_line_end_in(b.line, more, 0);
    match line_end(b.line, 0) {
        None => {},
        Some(i) => {
            let all = b.line + more;
            let longer = BufferView { line: all, ..b };
            let line = line_text(b.line.subrange(0, i + 1));
            assert(all.subrange(0, i + 1) =~= b.line.subrange(0, i + 1));
            let rest = BufferView { line: b.line.subrange(i + 1, b.line.len() as int), ..b };
            let rest_longer = BufferView {
                line: all.subrange(i + 1, all.len() as int),
                ..longer
            };
            assert(rest_longer.line =~= rest.line + more);
            let (next, frames) = line_step(rest, line);
            lemma_line_step(rest, rest_longer, line);
            lemma_drain_split(next, more, out + frames);
        },
    }
}

proof fn lemma_drain_out(b: BufferView, out: Seq<FrameView>)
    ensures
        drained(b, out).0 == drained(b, Seq::empty()).0,
        drained(b, out).1 == out + drained(b, Seq::empty()).1,
    decreases b.line.len(),
{
    lemma_line_end_in(b.line, Seq::empty(), 0);
    match line_end(b.line, 0) {
        None => {
            assert(out + Seq::<FrameView>::empty() =~= out);
        },
        Some(i) => {
            let line = line_text(b.line.subrange(0, i + 1));
            let rest = BufferView { line: b.line.subrange(i + 1, b.line.len() as int), ..b };
            let (next, frames) = line_step(rest, line);
            lemma_line_step(rest, rest, line);
            lemma_drain_out(next, out + frames);
            lemma_drain_out(next, frames);
            assert(Seq::<FrameView>::empty() + frames =~= frames);
            assert(out + frames + drained(next, Seq::empty()).1 =~= out + (frames + drained(
                next,
                Seq::empty(),
            ).1));
        },
    }
}

/// It does not matter how the stream is cut into chunks: two chunks one after the
/// other end the frames that they end as one.
pub proof fn chunks_do_not_matter(b: BufferView, first: Seq<char>, second: Seq<char>)
    ensures
        ({
            let (c, one) = fed(b, first);
            let (d, two) = fed(c, second);
            fed(b, first + second) == (d, one + two)
        }),
{
    let start = BufferView { line: b.line + first, ..b };
    let (c, one) = drained(start, Seq::empty());
    lemma_drain_split(start, second, Seq::empty());
    lemma_drain_out(BufferView { line: c.line + second, ..c }, one);
    assert(b.line + (first + second) =~= b.line + first + second);
}

/// A change as the stream describes it.
pub struct RawChange {
    pub kind: String,
    pub namespace: Option<i64>,
    pub wiki: Option<String>,
    pub server_name: Option<String>,
    pub title: Option<String>,
    pub revision: Option<RawRevision>,
    pub page_id: Option<u64>,
    pub id: Option<u64>,
}

/// The revisions of a change.
#[derive(Debug, Clone, Copy, PartialEq, Eq, Structural)]
pub struct RawRevision {
    pub new: Option<u64>,
    pub old: Option<u64>,
}

/// The part of a server's name before its first dot.
pub open spec fn first_label(s: Seq<char>, i: int) -> Seq<char>
    decreases s.len() - i,
{
    if i < 0 || i >= s.len() {
        s
    } else if s[i] == '.' {
        s.subrange(0, i)
    } else {
        first_label(s, i + 1)
    }
}

/// The language that a server's name names.
pub open spec fn language_of(server_name: Option<Seq<char>>) -> Seq<char> {
    match server_name {
        Some(s) => first_label(s, 0),
        None => Seq::empty(),
    }
}

/// A number, or another, or 0.
pub open spec fn first_number(a: Option<u64>, b: Option<u64>) -> u64 {
    match a {
        Some(n) => n,
        None => match b {
            Some(n) => n,
            None => 0,
        },
    }
}

/// The change of an article that a change of the stream is. One of another kind or
/// namespace, of a wiki that is not asked for, or one that does not say which page and
/// revision it is of, is none.
pub open spec fn article_edit(
    c: RawChange,
    sse_id: Option<Seq<char>>,
    wikis: Option<Set<Seq<char>>>,
) -> Option<EditView> {
    if c.kind@ != "edit"@ && c.kind@ != "new"@ {
        None
    } else if c.namespace != Some(0i64) {
        None
    } else if c.wiki is None || (wikis is Some && !wikis->0.contains(c.wiki->0@)) {
        None
    } else if c.title is None || c.revision is None || c.revision->0.new is None {
        None
    } else if first_number(c.page_id, c.id) == 0 || language_of(opt_text(c.server_name)).len() == 0 {
        None
    } else {
        Some(
            EditView {
                language: language_of(opt_text(c.server_name)),
                wiki: c.wiki->0@,
                page_id: first_number(c.page_id, c.id),
                rev_id: c.revision->0.new->0,
                parent_rev_id: first_number(c.revision->0.old, None),
                title: c.title->0@,
                sse_id,
            },
        )
    }
}

/// The part of a server's name before its first dot.
fn find_language(server_name: &Option<String>) -> (r: String)
    ensures
        r@ == language_of(opt_text(*server_name)),
{
    match server_name {
        None => String::new(),
        Some(s) => {
            let c = chars_of(s.as_str());
            let mut i: usize = 0;
            while i < c.len()
                invariant
                    i <= c@.len(),
                    c@ == s@,
                    language_of(opt_text(*server_name)) == first_label(c@, 0),
                    first_label(c@, i as int) == first_label(c@, 0),
                decreases c@.len() - i,
            {
                if c[i] == '.' {
                    return string_of(c.as_slice(), 0, i);
                }
                i = i + 1;
            }
            s.clone()
        },
    }
}

/// The wikis that are asked for.
pub open spec fn wiki_filter_view(f: Option<&StringHashSet>) -> Option<Set<Seq<char>>> {
    match f {
        Some(s) => Some(s@),
        None => None,
    }
}

/// The change of an article that a change of the stream is.
pub fn parse_frame(
    change: RawChange,
    sse_id: Option<&str>,
    wiki_filter: Option<&StringHashSet>,
) -> (r: Option<PageEdit>)
    ensures
        match r {
            Some(e) => article_edit(
                change,
                match sse_id {
                    Some(s) => Some(s@),
                    None => None,
                },
                wiki_filter_view(wiki_filter),
            ) == Some(e@),
            None => article_edit(
                change,
                match sse_id {
                    Some(s) => Some(s@),
                    None => None,
                },
                wiki_filter_view(wiki_filter),
            ) is None,
        },
{
    if !same_text(change.kind.as_str(), "edit") && !same_text(change.kind.as_str(), "new") {
        return None;
    }
    match change.namespace {
        Some(n) => {
            if n != 0 {
                return None;
            }
        },
        None => {
            return None;
        },
    }
    let wiki = match &change.wiki {
        Some(w) => w.clone(),
        None => {
            return None;
        },
    };
    if let Some(filter) = wiki_filter {
        if !filter.contains(wiki.as_str()) {
            return None;
        }
    }
    let title = match &change.title {
        Some(t) => t.clone(),
        None => {
            return None;
        },
    };
    let rev = match change.revision {
        Some(r) => r,
        None => {
            return None;
        },
    };
    let rev_id = match rev.new {
        Some(n) => n,
        None => {
            return None;
        },
    };
    let parent_rev_id = match rev.old {
        Some(n) => n,
        None => 0,
    };
    let page_id = match change.page_id {
        Some(n) => n,
        None => match change.id {
            Some(n) => n,
            None => 0,
        },
    };
    if page_id == 0 {
        return None;
    }
    let language = find_language(&change.server_name);
    if language.as_str().is_empty() {
        return None;
    }
    let id = match sse_id {
        Some(s) => Some(s.to_owned()),
        None => None,
    };
    Some(PageEdit { language, wiki, page_id, rev_id, parent_rev_id, title, sse_id: id })
}

/// Where in the stream to go on after a frame: at the frame, where it is named or
/// holds a change of an article; where it was otherwise.
pub fn resume_after(
    last: Option<String>,
    edit: &Option<PageEdit>,
    id: Option<String>,
) -> (r: Option<String>)
    ensures
        opt_text(r) == (match *edit {
            Some(e) => opt_text(e.sse_id),
            None => if id is Some {
                opt_text(id)
            } else {
                opt_text(last)
            },
        }),
{
    match edit {
        Some(e) => match &e.sse_id {
            Some(s) => Some(s.clone()),
            None => None,
        },
        None => match id {
            Some(s) => Some(s),
            None => last,
        },
    }
}

/// The seconds to wait before connecting anew: more where the connection was not made
/// than where it broke off.
pub fn reconnect_wait(connected: bool) -> (r: u64)
    ensures
        r == (if connected {
            1u64
        } else {
            3
        }),
{
    if connected {
        1
    } else {
        3
    }
}

/// Only changes of articles of the wikis asked for come through.
pub proof fn only_article_edits_pass(
    c: RawChange,
    sse_id: Option<Seq<char>>,
    wikis: Set<Seq<char>>,
)
    requires
        article_edit(c, sse_id, Some(wikis)) is Some,
    ensures
        c.namespace == Some(0i64),
        c.kind@ == "edit"@ || c.kind@ == "new"@,
        wikis.contains(article_edit(c, sse_id, Some(wikis))->0.wiki),
        article_edit(c, sse_id, Some(wikis))->0.page_id != 0,
        article_edit(c, sse_id, Some(wikis))->0.language.len() > 0,
{
}

/// Every change of an article of a wiki that is asked for passes, with the page, the
/// revision and the title that it names.
pub proof fn article_edits_pass(
    c: RawChange,
    sse_id: Option<Seq<char>>,
    wikis: Option<Set<Seq<char>>>,
    page_id: u64,
    rev_id: u64,
)
    requires
        c.kind@ == "edit"@ || c.kind@ == "new"@,
        c.namespace == Some(0i64),
        c.wiki is Some,
        wikis is None || wikis->0.contains(c.wiki->0@),
        c.title is Some,
        c.revision is Some,
        c.revision->0.new == Some(rev_id),
        c.page_id == Some(page_id),
        page_id != 0,
        language_of(opt_text(c.server_name)).len() > 0,
    ensures
        article_edit(c, sse_id, wikis) is Some,
        article_edit(c, sse_id, wikis)->0.page_id == page_id,
        article_edit(c, sse_id, wikis)->0.rev_id == rev_id,
        article_edit(c, sse_id, wikis)->0.title == c.title->0@,
        article_edit(c, sse_id, wikis)->0.wiki == c.wiki->0@,
        article_edit(c, sse_id, wikis)->0.sse_id == sse_id,
        c.revision->0.old is Some ==> article_edit(c, sse_id, wikis)->0.parent_rev_id
            == c.revision->0.old->0,
{
}

/// The language of a server is what stands before the first dot of its name.
pub proof fn language_stands_before_the_dot(language: Seq<char>, rest: Seq<char>)
    requires
        !language.contains('.'),
    ensures
        language_of(Some(language + seq!['.'] + rest)) == language,
        language_of(Some(language)) == language,
{
    let s = language + seq!['.'] + rest;
    lemma_label(s, language, 0);
    lemma_label(language, language, 0);
    assert(s.subrange(0, language.len() as int) =~= language);
    assert(language.subrange(0, language.len() as int) =~= language);
}

proof fn lemma_label(s: Seq<char>, language: Seq<char>, k: int)
    requires
        0 <= k <= language.len() <= s.len(),
        forall|i: int| 0 <= i < language.len() ==> s[i] == language[i],
        !language.contains('.'),
        language.len() == s.len() || s[language.len() as int] == '.',
    ensures
        first_label(s, k) == s.subrange(0, language.len() as int),
    decreases language.len() - k,
{
    if k < language.len() {
        assert(language.contains(language[k]));
        lemma_label(s, language, k + 1);
    }
}

} // verus!
