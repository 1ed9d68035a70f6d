//! Taking the templates out of a page's source, and putting their renderings back
//! into the rendering of the rest.
use crate::mwclient::{text_reply, MwError, MwErrorView};
use crate::text::{
    chars_of, decimal, decimal_text, is_digit, number_of, parse_u64, push_all,
    reading_undoes_writing, string_from, string_of, texts,
};
use crate::whocolor_wikitext::{
    injected, inject_spans_into_wikitext, sought, InjectionResult, WikitextToken,
};
use vstd::prelude::*;
use vstd::utf8::{
    decode_utf8, encode_utf8, is_char_boundary, is_continuation_byte, is_leading_byte_width_1,
    length_of_first_scalar, pop_first_scalar, valid_utf8,
};

verus! {

/// What a placeholder begins with: a character of the private use area.
pub const PLACEHOLDER_OPEN: char = '\u{E000}';

/// What a placeholder ends with.
pub const PLACEHOLDER_CLOSE: char = '\u{E001}';

/// Whether two bytes `c` stand at `i`.
pub open spec fn doubled(b: Seq<u8>, i: int, c: u8) -> bool {
    0 <= i && i + 1 < b.len() && b[i] == c && b[i + 1] == c
}

/// The outermost `{{`...`}}` in the bytes from `i` on, where `depth` such are open
/// and the outermost of them began at `start`.
pub open spec fn template_ranges(b: Seq<u8>, i: int, depth: u32, start: int) -> Seq<(int, int)>
    decreases b.len() - i,
{
    if i < 0 || i + 1 >= b.len() {
        Seq::empty()
    } else if doubled(b, i, 0x7b) {
        template_ranges(
            b,
            i + 2,
            if depth < u32::MAX {
                (depth + 1) as u32
            } else {
                depth
            },
            if depth == 0 {
                i
            } else {
                start
            },
        )
    } else if doubled(b, i, 0x7d) {
        if depth == 1 {
            seq![(start, i + 2)] + template_ranges(b, i + 2, 0, start)
        } else if depth > 1 {
            template_ranges(b, i + 2, (depth - 1) as u32, start)
        } else {
            template_ranges(b, i + 2, 0, start)
        }
    } else {
        template_ranges(b, i + 1, depth, start)
    }
}

/// The ranges as numbers.
pub open spec fn ranges_view(v: Seq<(usize, usize)>) -> Seq<(int, int)> {
    v.map_values(|r: (usize, usize)| (r.0 as int, r.1 as int))
}

/// The ranges lie in the text one after the other from `from` on, and begin and end
/// between characters.
pub open spec fn ranges_ok(b: Seq<u8>, ranges: Seq<(int, int)>, k: int, from: int) -> bool
    decreases ranges.len() - k,
{
    if k < 0 || k >= ranges.len() {
        is_char_boundary(b, from) && 0 <= from <= b.len()
    } else {
        &&& 0 <= from <= ranges[k].0 <= ranges[k].1 <= b.len()
        &&& is_char_boundary(b, from)
        &&& is_char_boundary(b, ranges[k].0)
        &&& ranges_ok(b, ranges, k + 1, ranges[k].1)
    }
}

/// The number of characters in the first `at` bytes of a text.
pub open spec fn char_index(text: Seq<char>, at: int) -> int {
    decode_utf8(encode_utf8(text).subrange(0, at)).len() as int
}

/// The text from one byte up to another.
pub open spec fn slice(text: Seq<char>, from: int, to: int) -> Seq<char> {
    text.subrange(char_index(text, from), char_index(text, to))
}

/// What stands in place of the template `k`.
pub open spec fn placeholder(k: int) -> Seq<char> {
    seq![PLACEHOLDER_OPEN, 'T'] + decimal(k as nat) + seq![PLACEHOLDER_CLOSE]
}

/// The text from `from` on, with a placeholder for each range from the `k`th on.
pub open spec fn stripped(text: Seq<char>, ranges: Seq<(int, int)>, k: int, from: int) -> Seq<char>
    decreases ranges.len() - k,
{
    if k < 0 || k >= ranges.len() {
        slice(text, from, encode_utf8(text).len() as int)
    } else {
        slice(text, from, ranges[k].0) + placeholder(k) + stripped(
            text,
            ranges,
            k + 1,
            ranges[k].1,
        )
    }
}

/// The texts of the ranges.
pub open spec fn templates(text: Seq<char>, ranges: Seq<(int, int)>) -> Seq<Seq<char>> {
    ranges.map_values(|r: (int, int)| slice(text, r.0, r.1))
}

/// The first place of a character at or after `i`.
pub open spec fn first_char(s: Seq<char>, c: char, i: int) -> Option<int>
    decreases s.len() - i,
{
    if i < 0 || i >= s.len() {
        None
    } else if s[i] == c {
        Some(i)
    } else {
        first_char(s, c, i + 1)
    }
}

/// The number of the template that a placeholder's name names.
pub open spec fn template_number(name: Seq<char>) -> Option<nat> {
    if name.len() > 0 && name[0] == 'T' {
        number_of(name.subrange(1, name.len() as int))
    } else {
        None
    }
}

/// What a placeholder is replaced by: the rendering of the template it names, or
/// the placeholder itself where there is none.
pub open spec fn filling(name: Seq<char>, rendered: Seq<Seq<char>>) -> Seq<char> {
    match template_number(name) {
        Some(n) => if n < rendered.len() {
            rendered[n as int]
        } else {
            seq![PLACEHOLDER_OPEN] + name + seq![PLACEHOLDER_CLOSE]
        },
        None => seq![PLACEHOLDER_OPEN] + name + seq![PLACEHOLDER_CLOSE],
    }
}

/// The text with its placeholders replaced.
pub open spec fn spliced(s: Seq<char>, rendered: Seq<Seq<char>>) -> Seq<char>
    decreases s.len(),
{
    match first_char(s, PLACEHOLDER_OPEN, 0) {
        None => s,
        Some(open) => match first_char(s, PLACEHOLDER_CLOSE, open + 1) {
            None => s,
            Some(close) => if 0 <= open < close < s.len() {
                s.subrange(0, open) + filling(s.subrange(open + 1, close), rendered) + spliced(
                    s.subrange(close + 1, s.len() as int),
                    rendered,
                )
            } else {
                s
            },
        },
    }
}

/// The text from `from` on, with a rendering for each range from the `k`th on.
pub open spec fn filled(
    text: Seq<char>,
    ranges: Seq<(int, int)>,
    rendered: Seq<Seq<char>>,
    k: int,
    from: int,
) -> Seq<char>
    decreases ranges.len() - k,
{
    if k < 0 || k >= ranges.len() {
        slice(text, from, encode_utf8(text).len() as int)
    } else {
        slice(text, from, ranges[k].0) + rendered[k] + filled(
            text,
            ranges,
            rendered,
            k + 1,
            ranges[k].1,
        )
    }
}

/// Outside of the ranges from the `k`th on there is no start of a placeholder.
pub open spec fn unmarked(text: Seq<char>, ranges: Seq<(int, int)>, k: int, from: int) -> bool
    decreases ranges.len() - k,
{
    if k < 0 || k >= ranges.len() {
        !slice(text, from, encode_utf8(text).len() as int).contains(PLACEHOLDER_OPEN)
    } else {
        &&& !slice(text, from, ranges[k].0).contains(PLACEHOLDER_OPEN)
        &&& unmarked(text, ranges, k + 1, ranges[k].1)
    }
}

/// After a byte that is a character of its own, another character begins.
proof fn lemma_next_boundary(b: Seq<u8>, p: int)
    requires
        valid_utf8(b),
        0 <= p < b.len(),
        b[p] < 0x80,
    ensures
        is_char_boundary(b, p + 1),
    decreases b.len(),
{
    assert(is_leading_byte_width_1(b[p])) by {
        let x = b[p];
        assert(x < 0x80 ==> (x & 0x80) == 0) by (bit_vector);
    }
    if p == 0 {
        reveal_with_fuel(is_char_boundary, 2);
    } else {
        lemma_ascii_boundary(b, p);
        let n = length_of_first_scalar(b);
        reveal_with_fuel(is_char_boundary, 2);
        assert(p >= n) by {
            if p < n {
                assert(is_continuation_byte(b[p]));
            }
        }
        lemma_next_boundary(pop_first_scalar(b), p - n);
    }
}

/// A byte that is a character of its own begins one.
proof fn lemma_ascii_boundary(b: Seq<u8>, p: int)
    requires
        valid_utf8(b),
        0 <= p < b.len(),
        b[p] < 0x80,
    ensures
        is_char_boundary(b, p),
        !is_continuation_byte(b[p]),
{
    let x = b[p];
    assert(x < 0x80 ==> (x & 0xC0) != 0x80) by (bit_vector);
    vstd::utf8::is_char_boundary_iff_not_is_continuation_byte(b, p);
}

/// The outermost templates of a text, as ranges of its bytes.
pub fn find_top_level_template_ranges(wikitext: &str) -> (r: Vec<(usize, usize)>)
    ensures
        ranges_view(r@) == template_ranges(encode_utf8(wikitext@), 0, 0, 0),
        ranges_ok(encode_utf8(wikitext@), ranges_view(r@), 0, 0),
{
    let bytes = wikitext.as_bytes();
    let ghost b = bytes@;
    let ghost goal = template_ranges(b, 0, 0, 0);
    let mut ranges: Vec<(usize, usize)> = Vec::new();
    let n: usize = bytes.len();
    let mut i: usize = 0;
    let mut depth: u32 = 0;
    let mut start: usize = 0;
    proof {
        assert(ranges_view(ranges@) + goal =~= goal);
    }
    while n >= 2 && i <= n - 2
        invariant
            n == b.len(),
            b == bytes@,
            i <= n,
            ranges_view(ranges@) + template_ranges(b, i as int, depth, start as int) == goal,
        decreases n - i,
    {
        if bytes[i] == 0x7b && bytes[i + 1] == 0x7b {
            if depth == 0 {
                start = i;
            }
            if depth < u32::MAX {
                depth = depth + 1;
            }
            i = i + 2;
        } else if bytes[i] == 0x7d && bytes[i + 1] == 0x7d {
            if depth > 0 {
                depth = depth - 1;
                if depth == 0 {
                    let ghost before = ranges_view(ranges@);
                    ranges.push((start, i + 2));
                    proof {
                        let rest = template_ranges(b, i + 2, 0, start as int);
                        assert(ranges_view(ranges@) =~= before.push((start as int, i + 2)));
                        assert(ranges_view(ranges@) + rest =~= before + (seq![
                            (start as int, i + 2),
                        ] + rest));
                    }
                }
            }
            i = i + 2;
        } else {
            i = i + 1;
        }
    }
    proof {
        assert(template_ranges(b, i as int, depth, start as int) =~= Seq::empty());
        assert(ranges_view(ranges@) =~= goal);
        templates_are_braced(wikitext@);
    }
    ranges
}

/// Each range begins with `{{`, ends with `}}`, and comes after the one before it.
pub open spec fn ranges_braced(b: Seq<u8>, ranges: Seq<(int, int)>) -> bool {
    forall|k: int|
        0 <= k < ranges.len() ==> doubled(b, (#[trigger] ranges[k]).0, 0x7b) && doubled(
            b,
            ranges[k].1 - 2,
            0x7d,
        )
}

proof fn lemma_ranges_found(b: Seq<u8>, i: int, depth: u32, start: int, from: int)
    requires
        valid_utf8(b),
        0 <= from <= i,
        from <= b.len(),
        is_char_boundary(b, from),
        depth > 0 ==> from <= start && start + 2 <= i && doubled(b, start, 0x7b),
    ensures
        ranges_ok(b, template_ranges(b, i, depth, start), 0, from),
        ranges_braced(b, template_ranges(b, i, depth, start)),
    decreases b.len() - i,
{
    let rs = template_ranges(b, i, depth, start);
    if i + 1 >= b.len() {
    } else if doubled(b, i, 0x7b) {
        lemma_ranges_found(
            b,
            i + 2,
            if depth < u32::MAX {
                (depth + 1) as u32
            } else {
                depth
            },
            if depth == 0 {
                i
            } else {
                start
            },
            from,
        );
    } else if doubled(b, i, 0x7d) {
        if depth == 1 {
            lemma_next_boundary(b, i + 1);
            lemma_ascii_boundary(b, start);
            let rest = template_ranges(b, i + 2, 0, start);
            lemma_ranges_found(b, i + 2, 0, start, i + 2);
            lemma_ranges_shift(b, rest, rs, 0, i + 2);
            assert forall|k: int| 0 <= k < rs.len() implies doubled(b, (#[trigger] rs[k]).0, 0x7b)
                && doubled(b, rs[k].1 - 2, 0x7d) by {
                if k > 0 {
                    assert(rs[k] == rest[k - 1]);
                }
            }
        } else if depth > 1 {
            lemma_ranges_found(b, i + 2, (depth - 1) as u32, start, from);
        } else {
            lemma_ranges_found(b, i + 2, 0, start, from);
        }
    } else {
        lemma_ranges_found(b, i + 1, depth, start, from);
    }
}

/// What holds of ranges holds of them behind another.
proof fn lemma_ranges_shift(
    b: Seq<u8>,
    rest: Seq<(int, int)>,
    all: Seq<(int, int)>,
    k: int,
    from: int,
)
    requires
        0 <= k <= rest.len(),
        all.len() == rest.len() + 1,
        forall|i: int| 0 <= i < rest.len() ==> all[i + 1] == #[trigger] rest[i],
        ranges_ok(b, rest, k, from),
    ensures
        ranges_ok(b, all, k + 1, from),
    decreases rest.len() - k,
{
    if k < rest.len() {
        assert(all[k + 1] == rest[k]);
        lemma_ranges_shift(b, rest, all, k + 1, rest[k].1);
    }
}

/// The ranges found lie in the text one after the other, between characters, and
/// each is a template from its first brace to its last.
pub proof fn templates_are_braced(text: Seq<char>)
    ensures
        ({
            let b = encode_utf8(text);
            let ranges = template_ranges(b, 0, 0, 0);
            ranges_ok(b, ranges, 0, 0) && ranges_braced(b, ranges)
        }),
{
    broadcast use vstd::utf8::encode_utf8_valid_utf8;

    let b = encode_utf8(text);
    vstd::utf8::is_char_boundary_start_end_of_seq(b);
    lemma_ranges_found(b, 0, 0, 0, 0);
}

/// What is rendered in place of a page whose templates are rendered apart: the
/// source without its templates, with spans, and the templates.
pub fn strip_and_inject(wikitext: &str, tokens: &[WikitextToken]) -> (r: (
    InjectionResult,
    Vec<String>,
))
    ensures
        ({
            let ranges = template_ranges(encode_utf8(wikitext@), 0, 0, 0);
            &&& r.0@ == injected(stripped(wikitext@, ranges, 0, 0), sought(tokens@))
            &&& texts(r.1@) == templates(wikitext@, ranges)
        }),
{
    let ranges = find_top_level_template_ranges(wikitext);
    let (stripped_wikitext, parts) = strip_templates(wikitext, ranges.as_slice());
    (inject_spans_into_wikitext(stripped_wikitext.as_str(), tokens), parts)
}

/// The model of what the wiki made of several sources.
pub open spec fn text_replies(v: Seq<Result<String, MwError>>) -> Seq<
    Result<Seq<char>, MwErrorView>,
> {
    v.map_values(|r: Result<String, MwError>| text_reply(r))
}

/// The renderings, up to the first that failed, or that failure.
pub open spec fn all_rendered(v: Seq<Result<Seq<char>, MwErrorView>>) -> Result<
    Seq<Seq<char>>,
    MwErrorView,
>
    decreases v.len(),
{
    if v.len() == 0 {
        Ok(Seq::empty())
    } else {
        match all_rendered(v.drop_last()) {
            Err(e) => Err(e),
            Ok(done) => match v.last() {
                Err(e) => Err(e),
                Ok(html) => Ok(done.push(html)),
            },
        }
    }
}

/// The page put together from the rendering of the rest and those of the templates.
/// A failure of the rest goes before those of the templates.
pub open spec fn assembled(
    main: Result<Seq<char>, MwErrorView>,
    templates: Seq<Result<Seq<char>, MwErrorView>>,
) -> Result<Seq<char>, MwErrorView> {
    match main {
        Err(e) => Err(e),
        Ok(html) => match all_rendered(templates) {
            Err(e) => Err(e),
            Ok(rendered) => Ok(spliced(html, rendered)),
        },
    }
}

/// A failure stays, whatever is rendered after it.
proof fn lemma_failure_stays(v: Seq<Result<Seq<char>, MwErrorView>>, k: int)
    requires
        0 <= k <= v.len(),
        all_rendered(v.take(k)) is Err,
    ensures
        all_rendered(v) == all_rendered(v.take(k)),
    decreases v.len() - k,
{
    if k < v.len() {
        assert(v.take(k + 1).drop_last() =~= v.take(k));
        lemma_failure_stays(v, k + 1);
    } else {
        assert(v.take(k) =~= v);
    }
}

/// Puts a page together from the rendering of its source without the templates, and
/// those of the templates.
pub fn assemble_html(main_html: Result<String, MwError>, templates: Vec<Result<String, MwError>>) -> (r:
    Result<String, MwError>)
    ensures
        text_reply(r) == assembled(text_reply(main_html), text_replies(templates@)),
{
    let html = match main_html {
        Ok(html) => html,
        Err(e) => return Err(e),
    };
    let ghost all = text_replies(templates@);
    let ghost given = templates@;
    let mut left = templates;
    let mut rendered: Vec<String> = Vec::new();
    proof {
        assert(all.take(0) =~= Seq::empty());
        assert(left@ =~= given.skip(0));
        assert(texts(rendered@) =~= Seq::empty());
    }
    while left.len() > 0
        invariant
            all == text_replies(given),
            rendered@.len() + left@.len() == given.len(),
            left@ == given.skip(rendered@.len() as int),
            all_rendered(all.take(rendered@.len() as int)) == Ok::<Seq<Seq<char>>, MwErrorView>(
                texts(rendered@),
            ),
            text_reply(main_html) == Ok::<Seq<char>, MwErrorView>(html@),
            all == text_replies(templates@),
        decreases left@.len(),
    {
        let ghost k = rendered@.len() as int;
        let next = left.remove(0);
        proof {
            assert(next == given[k]);
            assert(all.take(k + 1).drop_last() =~= all.take(k));
            assert(all.take(k + 1).last() == text_reply(next));
            assert(left@ =~= given.skip(k + 1));
        }
        match next {
            Ok(t) => {
                let ghost done = texts(rendered@);
                rendered.push(t);
                proof {
                    assert(texts(rendered@) =~= done.push(t@));
                }
            },
            Err(e) => {
                proof {
                    lemma_failure_stays(all, k + 1);
                }
                return Err(e);
            },
        }
    }
    proof {
        assert(all.take(rendered@.len() as int) =~= all);
    }
    Ok(splice_templates(html.as_str(), rendered.as_slice()))
}

/// The text up to a byte between characters.
proof fn lemma_char_index(text: Seq<char>, at: int)
    requires
        0 <= at <= encode_utf8(text).len(),
        is_char_boundary(encode_utf8(text), at),
    ensures
        0 <= char_index(text, at) <= text.len(),
        decode_utf8(encode_utf8(text).subrange(0, at)) == text.take(char_index(text, at)),
        decode_utf8(encode_utf8(text).subrange(at, encode_utf8(text).len() as int)) == text.skip(
            char_index(text, at),
        ),
        at == 0 ==> char_index(text, at) == 0,
        at == encode_utf8(text).len() ==> char_index(text, at) == text.len(),
{
    broadcast use vstd::utf8::encode_utf8_valid_utf8;

    let b = encode_utf8(text);
    vstd::utf8::decode_utf8_split(b, at);
    vstd::utf8::encode_utf8_decode_utf8(text);
    let head = decode_utf8(b.subrange(0, at));
    let tail = decode_utf8(b.subrange(at, b.len() as int));
    assert(text == head + tail);
    assert(head =~= text.take(head.len() as int));
    assert(tail =~= text.skip(head.len() as int));
    if at == 0 {
        assert(b.subrange(0, 0) =~= Seq::empty());
    }
    if at == b.len() {
        assert(b.subrange(0, at) =~= b);
    }
}

/// A boundary of a text is one of the text up to a later boundary.
proof fn lemma_boundary_within(b: Seq<u8>, a: int, c: int)
    requires
        valid_utf8(b),
        0 <= a <= c <= b.len(),
        is_char_boundary(b, a),
        is_char_boundary(b, c),
    ensures
        valid_utf8(b.subrange(0, c)),
        is_char_boundary(b.subrange(0, c), a),
{
    vstd::utf8::valid_utf8_split(b, c);
    let h = b.subrange(0, c);
    if a < c {
        vstd::utf8::is_char_boundary_iff_not_is_continuation_byte(b, a);
        vstd::utf8::is_char_boundary_iff_not_is_continuation_byte(h, a);
    } else {
        vstd::utf8::is_char_boundary_start_end_of_seq(h);
    }
}

/// An earlier boundary has no more characters before it.
proof fn lemma_char_index_order(text: Seq<char>, a: int, c: int)
    requires
        0 <= a <= c <= encode_utf8(text).len(),
        is_char_boundary(encode_utf8(text), a),
        is_char_boundary(encode_utf8(text), c),
    ensures
        0 <= char_index(text, a) <= char_index(text, c) <= text.len(),
{
    broadcast use vstd::utf8::encode_utf8_valid_utf8;

    let b = encode_utf8(text);
    let h = b.subrange(0, c);
    lemma_char_index(text, a);
    lemma_char_index(text, c);
    lemma_boundary_within(b, a, c);
    vstd::utf8::decode_utf8_split(h, a);
    assert(h.subrange(0, a) =~= b.subrange(0, a));
}

/// The text from one byte up to another.
pub(crate) fn slice_bytes(text: &str, from: usize, to: usize) -> (r: String)
    requires
        from <= to <= encode_utf8(text@).len(),
        is_char_boundary(encode_utf8(text@), from as int),
        is_char_boundary(encode_utf8(text@), to as int),
    ensures
        r@ == slice(text@, from as int, to as int),
{
    broadcast use {vstd::utf8::encode_utf8_valid_utf8, vstd::utf8::encode_utf8_decode_utf8};

    let ghost b = encode_utf8(text@);
    let (head, _) = text.split_at(to);
    proof {
        lemma_char_index(text@, from as int);
        lemma_char_index(text@, to as int);
        lemma_char_index_order(text@, from as int, to as int);
        lemma_boundary_within(b, from as int, to as int);
        assert(encode_utf8(head@) == b.subrange(0, to as int));
        assert(head@ == text@.take(char_index(text@, to as int)));
    }
    let (front, part) = head.split_at(from);
    proof {
        lemma_char_index(head@, from as int);
        let h = encode_utf8(head@);
        assert(h.subrange(0, from as int) =~= b.subrange(0, from as int));
        assert(char_index(head@, from as int) == char_index(text@, from as int));
        assert(part@ == head@.skip(char_index(text@, from as int)));
        assert(part@ =~= slice(text@, from as int, to as int));
    }
    part.to_owned()
}

/// Puts a placeholder in place of each range. Gives the rest of the text, and the
/// texts of the ranges.
pub fn strip_templates(wikitext: &str, ranges: &[(usize, usize)]) -> (r: (String, Vec<String>))
    requires
        ranges_ok(encode_utf8(wikitext@), ranges_view(ranges@), 0, 0),
    ensures
        r.0@ == stripped(wikitext@, ranges_view(ranges@), 0, 0),
        texts(r.1@) == templates(wikitext@, ranges_view(ranges@)),
{
    let ghost b = encode_utf8(wikitext@);
    let ghost rs = ranges_view(ranges@);
    let ghost goal = stripped(wikitext@, rs, 0, 0);
    let n: usize = wikitext.as_bytes().len();
    let mut out: Vec<char> = Vec::new();
    let mut parts: Vec<String> = Vec::new();
    let mut cursor: usize = 0;
    let mut k: usize = 0;
    proof {
        assert(out@ + goal =~= goal);
    }
    while k < ranges.len()
        invariant
            n == b.len(),
            b == encode_utf8(wikitext@),
            rs == ranges_view(ranges@),
            k <= ranges@.len(),
            cursor <= n,
            ranges_ok(b, rs, k as int, cursor as int),
            out@ + stripped(wikitext@, rs, k as int, cursor as int) == goal,
            parts@.len() == k,
            forall|i: int|
                0 <= i < k ==> (#[trigger] parts@[i])@ == slice(wikitext@, rs[i].0, rs[i].1),
        decreases ranges@.len() - k,
    {
        let (start, end) = ranges[k];
        let ghost before = out@;
        proof {
            assert(rs[k as int] == (start as int, end as int));
            assert(ranges_ok(b, rs, k + 1, end as int));
        }
        let text = slice_bytes(wikitext, cursor, start);
        push_all(&mut out, chars_of(text.as_str()).as_slice());
        out.push(PLACEHOLDER_OPEN);
        out.push('T');
        push_all(&mut out, chars_of(decimal_text(k as u64).as_str()).as_slice());
        out.push(PLACEHOLDER_CLOSE);
        proof {
            let rest = stripped(wikitext@, rs, k + 1, end as int);
            assert(out@ =~= before + text@ + placeholder(k as int));
            assert(out@ + rest =~= before + (text@ + placeholder(k as int) + rest));
        }
        parts.push(slice_bytes(wikitext, start, end));
        cursor = end;
        k = k + 1;
    }
    proof {
        vstd::utf8::encode_utf8_valid_utf8(wikitext@);
        vstd::utf8::is_char_boundary_start_end_of_seq(b);
    }
    let text = slice_bytes(wikitext, cursor, n);
    push_all(&mut out, chars_of(text.as_str()).as_slice());
    proof {
        assert(out@ =~= goal);
        assert(texts(parts@) =~= templates(wikitext@, rs));
    }
    (string_from(&out), parts)
}

/// The first place of a character at or after `from`.
fn find_char(s: &Vec<char>, c: char, from: usize) -> (r: Option<usize>)
    ensures
        match r {
            Some(i) => first_char(s@, c, from as int) == Some(i as int) && from <= i < s@.len(),
            None => first_char(s@, c, from as int) is None,
        },
{
    let mut i: usize = from;
    while i < s.len()
        invariant
            from <= i,
            first_char(s@, c, i as int) == first_char(s@, c, from as int),
        decreases s@.len() - i,
    {
        if s[i] == c {
            return Some(i);
        }
        i = i + 1;
    }
    None
}

proof fn lemma_first_char_shift(s: Seq<char>, c: char, from: int, i: int)
    requires
        0 <= from <= s.len(),
        0 <= i,
    ensures
        first_char(s.subrange(from, s.len() as int), c, i) == (match first_char(s, c, from + i) {
            Some(k) => Some(k - from),
            None => None,
        }),
        first_char(s, c, from + i) is Some ==> from + i <= first_char(s, c, from + i)->0 < s.len(),
    decreases s.len() - from - i,
{
    if from + i < s.len() {
        lemma_first_char_shift(s, c, from, i + 1);
    }
}

/// Replaces each placeholder by the rendering of the template it names. One that
/// names no template is left as it is.
pub fn splice_templates(stripped_html: &str, rendered_templates: &[String]) -> (r: String)
    ensures
        r@ == spliced(stripped_html@, texts(rendered_templates@)),
{
    let ghost rs = texts(rendered_templates@);
    let s = chars_of(stripped_html);
    let ghost goal = spliced(s@, rs);
    let mut out: Vec<char> = Vec::new();
    let mut cursor: usize = 0;
    let mut go: bool = true;
    proof {
        assert(s@.subrange(0, s@.len() as int) =~= s@);
        assert(out@ + goal =~= goal);
    }
    while go
        invariant
            s@ == stripped_html@,
            rs == texts(rendered_templates@),
            cursor <= s@.len(),
            goal == out@ + (if go {
                spliced(s@.subrange(cursor as int, s@.len() as int), rs)
            } else {
                s@.subrange(cursor as int, s@.len() as int)
            }),
        decreases
                s@.len() - cursor + (if go {
                    1int
                } else {
                    0
                }),
    {
        let ghost rest = s@.subrange(cursor as int, s@.len() as int);
        proof {
            lemma_first_char_shift(s@, PLACEHOLDER_OPEN, cursor as int, 0);
        }
        let open = match find_char(&s, PLACEHOLDER_OPEN, cursor) {
            Some(i) => i,
            None => s.len(),
        };
        if open >= s.len() {
            go = false;
        } else {
            proof {
                lemma_first_char_shift(s@, PLACEHOLDER_CLOSE, cursor as int, open - cursor + 1);
            }
            match find_char(&s, PLACEHOLDER_CLOSE, open + 1) {
                None => {
                    go = false;
                },
                Some(close) => {
                    let name = string_of(s.as_slice(), open + 1, close);
                    let ghost after = s@.subrange(close + 1, s@.len() as int);
                    proof {
                        let o = open - cursor;
                        let c = close - cursor;
                        assert(rest.subrange(o + 1, c) =~= name@);
                        assert(rest.subrange(0, o) =~= s@.subrange(cursor as int, open as int));
                        assert(rest.subrange(c + 1, rest.len() as int) =~= after);
                        assert(spliced(rest, rs) == s@.subrange(cursor as int, open as int)
                            + filling(name@, rs) + spliced(after, rs));
                    }
                    push_all(
                        &mut out,
                        chars_of(string_of(s.as_slice(), cursor, open).as_str()).as_slice(),
                    );
                    let fill = fill_placeholder(name.as_str(), rendered_templates);
                    push_all(&mut out, chars_of(fill.as_str()).as_slice());
                    cursor = close + 1;
                    proof {
                        assert(goal =~= out@ + spliced(after, rs));
                    }
                },
            }
        }
    }
    push_all(&mut out, chars_of(string_of(s.as_slice(), cursor, s.len()).as_str()).as_slice());
    proof {
        assert(out@ =~= goal);
    }
    string_from(&out)
}

/// What a placeholder is replaced by.
fn fill_placeholder(name: &str, rendered: &[String]) -> (r: String)
    ensures
        r@ == filling(name@, texts(rendered@)),
{
    let c = chars_of(name);
    let total: usize = rendered.len();
    proof {
        assert(texts(rendered@).len() == total);
    }
    if c.len() > 0 && c[0] == 'T' {
        let number = string_of(c.as_slice(), 1, c.len());
        if let Some(n) = parse_u64(number.as_str()) {
            if n < total as u64 {
                return rendered[n as usize].clone();
            }
        }
    }
    let mut out: Vec<char> = Vec::new();
    out.push(PLACEHOLDER_OPEN);
    push_all(&mut out, c.as_slice());
    out.push(PLACEHOLDER_CLOSE);
    proof {
        assert(out@ =~= seq![PLACEHOLDER_OPEN] + name@ + seq![PLACEHOLDER_CLOSE]);
    }
    string_from(&out)
}

proof fn lemma_first_char_at(s: Seq<char>, c: char, i: int, k: int)
    requires
        0 <= i <= k < s.len(),
        s[k] == c,
        forall|m: int| i <= m < k ==> s[m] != c,
    ensures
        first_char(s, c, i) == Some(k),
    decreases k - i,
{
    if i < k {
        lemma_first_char_at(s, c, i + 1, k);
    }
}

proof fn lemma_first_char_none(s: Seq<char>, c: char, i: int)
    requires
        0 <= i,
        !s.contains(c),
    ensures
        first_char(s, c, i) is None,
    decreases s.len() - i,
{
    if i < s.len() {
        assert(s.contains(s[i]));
        lemma_first_char_none(s, c, i + 1);
    }
}

/// Splicing into a text with its first placeholder.
proof fn lemma_splice_first(part: Seq<char>, k: int, rest: Seq<char>, rendered: Seq<Seq<char>>)
    requires
        !part.contains(PLACEHOLDER_OPEN),
        0 <= k < rendered.len(),
    ensures
        spliced(part + placeholder(k) + rest, rendered) == part + rendered[k] + spliced(
            rest,
            rendered,
        ),
{
    let s = part + placeholder(k) + rest;
    let digits = decimal(k as nat);
    let o = part.len() as int;
    let c = o + 2 + digits.len();
    reading_undoes_writing(k as nat);
    assert forall|m: int| 0 <= m < o implies s[m] != PLACEHOLDER_OPEN by {
        assert(part.contains(part[m]));
    }
    lemma_first_char_at(s, PLACEHOLDER_OPEN, 0, o);
    assert forall|m: int| o + 1 <= m < c implies s[m] != PLACEHOLDER_CLOSE by {
        if m > o + 1 {
            assert(s[m] == digits[m - o - 2]);
            assert(is_digit(digits[m - o - 2]));
        }
    }
    assert(s[c] == PLACEHOLDER_CLOSE);
    lemma_first_char_at(s, PLACEHOLDER_CLOSE, o + 1, c);
    let name = s.subrange(o + 1, c);
    assert(name =~= seq!['T'] + digits);
    assert(name.subrange(1, name.len() as int) =~= digits);
    assert(s.subrange(0, o) =~= part);
    assert(s.subrange(c + 1, s.len() as int) =~= rest);
}

proof fn lemma_splice_strip(
    text: Seq<char>,
    ranges: Seq<(int, int)>,
    rendered: Seq<Seq<char>>,
    k: int,
    from: int,
)
    requires
        0 <= k <= ranges.len(),
        rendered.len() == ranges.len(),
        unmarked(text, ranges, k, from),
    ensures
        spliced(stripped(text, ranges, k, from), rendered) == filled(
            text,
            ranges,
            rendered,
            k,
            from,
        ),
    decreases ranges.len() - k,
{
    if k < ranges.len() {
        lemma_splice_strip(text, ranges, rendered, k + 1, ranges[k].1);
        lemma_splice_first(
            slice(text, from, ranges[k].0),
            k,
            stripped(text, ranges, k + 1, ranges[k].1),
            rendered,
        );
    } else {
        lemma_first_char_none(
            slice(text, from, encode_utf8(text).len() as int),
            PLACEHOLDER_OPEN,
            0,
        );
    }
}

/// Stripping a text and splicing renderings into what is left gives the text with
/// each range replaced by its rendering, where no placeholder starts outside of the
/// ranges.
pub proof fn splicing_fills_ranges(
    text: Seq<char>,
    ranges: Seq<(int, int)>,
    rendered: Seq<Seq<char>>,
)
    requires
        rendered.len() == ranges.len(),
        unmarked(text, ranges, 0, 0),
    ensures
        spliced(stripped(text, ranges, 0, 0), rendered) == filled(text, ranges, rendered, 0, 0),
{
    lemma_splice_strip(text, ranges, rendered, 0, 0);
}

proof fn lemma_filled_whole(text: Seq<char>, ranges: Seq<(int, int)>, k: int, from: int)
    requires
        0 <= k <= ranges.len(),
        ranges_ok(encode_utf8(text), ranges, k, from),
    ensures
        filled(text, ranges, templates(text, ranges), k, from) == text.skip(
            char_index(text, from),
        ),
    decreases ranges.len() - k,
{
    let b = encode_utf8(text);
    vstd::utf8::encode_utf8_valid_utf8(text);
    vstd::utf8::is_char_boundary_start_end_of_seq(b);
    lemma_char_index(text, b.len() as int);
    if k < ranges.len() {
        lemma_filled_whole(text, ranges, k + 1, ranges[k].1);
        assert(ranges_ok(b, ranges, k + 1, ranges[k].1));
        lemma_char_index_order(text, from, ranges[k].0);
        lemma_char_index_order(text, ranges[k].0, ranges[k].1);
        assert(filled(text, ranges, templates(text, ranges), k, from) =~= text.skip(
            char_index(text, from),
        ));
    } else {
        lemma_char_index(text, from);
        assert(slice(text, from, b.len() as int) =~= text.skip(char_index(text, from)));
    }
}

/// Splicing the templates themselves into what stripping left gives the text back,
/// where no placeholder starts outside of the templates.
pub proof fn splicing_undoes_stripping(text: Seq<char>)
    requires
        unmarked(text, template_ranges(encode_utf8(text), 0, 0, 0), 0, 0),
    ensures
        ({
            let ranges = template_ranges(encode_utf8(text), 0, 0, 0);
            spliced(stripped(text, ranges, 0, 0), templates(text, ranges)) == text
        }),
{
    let b = encode_utf8(text);
    let ranges = template_ranges(b, 0, 0, 0);
    templates_are_braced(text);
    splicing_fills_ranges(text, ranges, templates(text, ranges));
    lemma_filled_whole(text, ranges, 0, 0);
    vstd::utf8::encode_utf8_valid_utf8(text);
    vstd::utf8::is_char_boundary_start_end_of_seq(b);
    lemma_char_index(text, 0);
    assert(text.skip(0) =~= text);
}

} // verus!
