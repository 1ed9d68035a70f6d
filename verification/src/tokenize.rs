//! Splitting a page's text into paragraphs, sentences and tokens.
//!
//! The text is expected in lowercase.
use crate::diff::distinct;
use crate::matcher::Ratio;
use crate::outside::{
    md5_digest, md5_hex, regex_is_match, regex_replace_all, regex_replaced,
};
use crate::text::{
    chars_of, contains_text, joined, occurs_at, occurs_in, push_all, replace_text, replaced,
    replaced_from, same_text, split_from, split_on, split_text, split_undoes_join, string_from,
    texts, trim_text, trimmed,
};
use vstd::hash_set::StringHashSet;
use vstd::prelude::*;

verus! {

/// Three characters other than whitespace, dot and equals sign, then a dot and a
/// space: the end of a sentence, but not of most abbreviations.
pub const DOT_PATTERN: &'static str = r"([^\s\.=][^\s\.=][^\s\.=]\.) ";

/// An address, up to and with the first space, bar, angle bracket or line end.
pub const URL_PATTERN: &'static str = r"(http.*?://.*?[ \|<>\n\r])";

/// A CJK character.
pub const CJK_PATTERN: &'static str =
    "([\u{2E80}-\u{9FFF}\u{F900}-\u{FAFF}\u{FE00}-\u{FE1F}\u{FE30}-\u{FE6F}\u{FF00}-\u{FFEF}\u{16FE0}-\u{1B2FF}\u{1F000}-\u{1F2FF}\u{20000}-\u{3347F}\u{E0100}-\u{E01EF}])";

/// A CJK character between two delimiters.
pub const CJK_REPLACEMENT: &'static str = "||$1||";

/// The end of a sentence, kept, then the delimiter.
pub const DOT_REPLACEMENT: &'static str = "$1@@@@";

/// An address between two delimiters.
pub const URL_REPLACEMENT: &'static str = "@@@@$1@@@@";

/// The characters that are tokens on their own.
pub const SYMBOLS: &'static str =
    ".,;:?!-_/\\()[]{}*#@&=+%~$^<>\"'´`¸˛’¤₳฿₵¢₡₢₫₯֏₠€ƒ₣₲₴₭₺₾ℳ₥₦₧₱₰£៛₽₹₨₪৳₸₮₩¥§‖¦⟨⟩–—¯»«”÷×′″‴¡¿©℗®℠™";

/// Whether the character is in one of the CJK ranges.
pub open spec fn is_cjk(c: char) -> bool {
    let n = c as int;
    ||| 0x2E80 <= n <= 0x9FFF
    ||| 0xF900 <= n <= 0xFAFF
    ||| 0xFE00 <= n <= 0xFE1F
    ||| 0xFE30 <= n <= 0xFE6F
    ||| 0xFF00 <= n <= 0xFFEF
    ||| 0x16FE0 <= n <= 0x1B2FF
    ||| 0x1F000 <= n <= 0x1F2FF
    ||| 0x20000 <= n <= 0x3347F
    ||| 0xE0100 <= n <= 0xE01EF
}

/// Whether `s` holds a CJK character.
pub open spec fn has_cjk(s: Seq<char>) -> bool {
    exists|i: int| 0 <= i < s.len() && is_cjk(#[trigger] s[i])
}

/// Every CJK character of `s` between two delimiters.
pub open spec fn wrapped_cjk(s: Seq<char>) -> Seq<char>
    decreases s.len(),
{
    if s.len() == 0 {
        Seq::empty()
    } else {
        wrapped_cjk(s.drop_last()) + if is_cjk(s.last()) {
            seq!['|', '|', s.last(), '|', '|']
        } else {
            seq![s.last()]
        }
    }
}

/// MD5 digest of the text in lowercase hexadecimal.
pub fn hash_md5(text: &str) -> (r: String)
    ensures
        r@ == md5_hex(text@),
{
    md5_digest(text)
}

/// The text with line ends made uniform and blank lines put around tables and
/// table rows.
pub open spec fn paragraph_marked(s: Seq<char>) -> Seq<char> {
    let s = replaced(s, "\r\n"@, "\n"@);
    let s = replaced(s, "\r"@, "\n"@);
    let s = replaced(s, "<table>"@, "\n\n<table>"@);
    let s = replaced(s, "</table>"@, "</table>\n\n"@);
    let s = replaced(s, "<tr>"@, "\n\n<tr>"@);
    let s = replaced(s, "</tr>"@, "</tr>\n\n"@);
    let s = replaced(s, "{|"@, "\n\n{|"@);
    let s = replaced(s, "|}"@, "|}\n\n"@);
    replaced(s, "|-\n"@, "\n\n|-\n"@)
}

/// The paragraphs of a text: what lies between blank lines.
pub open spec fn paragraphs_of(s: Seq<char>) -> Seq<Seq<char>> {
    split_on(paragraph_marked(s), "\n\n"@)
}

/// Splits a text into paragraphs.
pub fn split_paragraphs(text: &str) -> (r: Vec<String>)
    ensures
        texts(r@) == paragraphs_of(text@),
{
    proof {
        reveal_strlit("\r\n");
        reveal_strlit("\r");
        reveal_strlit("<table>");
        reveal_strlit("</table>");
        reveal_strlit("<tr>");
        reveal_strlit("</tr>");
        reveal_strlit("{|");
        reveal_strlit("|}");
        reveal_strlit("|-\n");
        reveal_strlit("\n\n");
    }
    let s = chars_of(text);
    let s = replace_text(&s, "\r\n", "\n");
    let s = replace_text(&s, "\r", "\n");
    let s = replace_text(&s, "<table>", "\n\n<table>");
    let s = replace_text(&s, "</table>", "</table>\n\n");
    let s = replace_text(&s, "<tr>", "\n\n<tr>");
    let s = replace_text(&s, "</tr>", "</tr>\n\n");
    let s = replace_text(&s, "{|", "\n\n{|");
    let s = replace_text(&s, "|}", "|}\n\n");
    let s = replace_text(&s, "|-\n", "\n\n|-\n");
    split_text(&s, "\n\n")
}

/// Replacing by something shorter shortens the text where the pattern occurs.
pub proof fn lemma_replaced_shrinks(s: Seq<char>, p: Seq<char>, r: Seq<char>, i: int)
    requires
        0 <= i,
        0 < p.len(),
        r.len() < p.len(),
    ensures
        replaced_from(s, p, r, i).len() <= if i <= s.len() {
            s.len() - i
        } else {
            0
        },
        (exists|k: int| i <= k && #[trigger] occurs_at(s, p, k)) ==> replaced_from(s, p, r, i).len()
            < s.len() - i,
    decreases s.len() - i,
{
    if i < s.len() {
        if occurs_at(s, p, i) {
            lemma_replaced_shrinks(s, p, r, i + p.len());
        } else {
            lemma_replaced_shrinks(s, p, r, i + 1);
            if exists|k: int| i <= k && #[trigger] occurs_at(s, p, k) {
                let k = choose|k: int| i <= k && #[trigger] occurs_at(s, p, k);
                assert(i + 1 <= k);
            }
        }
    }
}

/// `s` with `p` replaced by the shorter `r` until it occurs no more.
pub open spec fn collapsed(s: Seq<char>, p: Seq<char>, r: Seq<char>) -> Seq<char>
    decreases s.len(),
{
    if r.len() < p.len() && occurs_in(s, p) {
        proof {
            lemma_replaced_shrinks(s, p, r, 0);
            let k = choose|k: int| #[trigger] occurs_at(s, p, k);
            assert(0 <= k && occurs_at(s, p, k));
        }
        collapsed(replaced(s, p, r), p, r)
    } else {
        s
    }
}

fn collapse(s: Vec<char>, p: &str, r: &str) -> (out: Vec<char>)
    requires
        r@.len() < p@.len(),
    ensures
        out@ == collapsed(s@, p@, r@),
{
    let mut s = s;
    let ghost goal = collapsed(s@, p@, r@);
    while contains_text(&s, p)
        invariant
            r@.len() < p@.len(),
            collapsed(s@, p@, r@) == goal,
        decreases s@.len(),
    {
        proof {
            lemma_replaced_shrinks(s@, p@, r@, 0);
            let k = choose|k: int| #[trigger] occurs_at(s@, p@, k);
            assert(0 <= k && occurs_at(s@, p@, k));
        }
        s = replace_text(&s, p, r);
    }
    s
}

/// The text with the delimiter after each line end.
pub open spec fn line_marked(s: Seq<char>) -> Seq<char> {
    replaced(s, "\n"@, "\n@@@@"@)
}

/// The text with the delimiter after the other ends of sentences and around
/// comments and references.
pub open spec fn sentence_marked(s: Seq<char>) -> Seq<char> {
    let s = replaced(s, "; "@, ";@@@@"@);
    let s = replaced(s, "? "@, "?@@@@"@);
    let s = replaced(s, "! "@, "!@@@@"@);
    let s = replaced(s, ": "@, ":@@@@"@);
    let s = replaced(s, "\t"@, "\t@@@@"@);
    let s = replaced(s, "<!--"@, "@@@@<!--"@);
    let s = replaced(s, "-->"@, "-->@@@@"@);
    let s = replaced(s, "<ref"@, "@@@@<ref"@);
    replaced(s, "/ref>"@, "/ref>@@@@"@)
}

/// The pieces between runs of the delimiter.
pub open spec fn sentences_cut(s: Seq<char>) -> Seq<Seq<char>> {
    split_on(collapsed(s, "@@@@@@@@"@, "@@@@"@), "@@@@"@)
}

/// The sentences of a paragraph.
pub open spec fn sentences_of(s: Seq<char>) -> Seq<Seq<char>> {
    let s = regex_replaced(DOT_PATTERN@, line_marked(s), DOT_REPLACEMENT@);
    let s = regex_replaced(URL_PATTERN@, sentence_marked(s), URL_REPLACEMENT@);
    sentences_cut(s)
}

/// Puts the delimiter after the other ends of sentences and around comments and
/// references.
pub fn mark_sentences(text: &str) -> (r: String)
    ensures
        r@ == sentence_marked(text@),
{
    proof {
        reveal_strlit("; ");
        reveal_strlit("? ");
        reveal_strlit("! ");
        reveal_strlit(": ");
        reveal_strlit("\t");
        reveal_strlit("<!--");
        reveal_strlit("-->");
        reveal_strlit("<ref");
        reveal_strlit("/ref>");
    }
    let s = chars_of(text);
    let s = replace_text(&s, "; ", ";@@@@");
    let s = replace_text(&s, "? ", "?@@@@");
    let s = replace_text(&s, "! ", "!@@@@");
    let s = replace_text(&s, ": ", ":@@@@");
    let s = replace_text(&s, "\t", "\t@@@@");
    let s = replace_text(&s, "<!--", "@@@@<!--");
    let s = replace_text(&s, "-->", "-->@@@@");
    let s = replace_text(&s, "<ref", "@@@@<ref");
    let s = replace_text(&s, "/ref>", "/ref>@@@@");
    string_from(&s)
}

/// Cuts a marked text at its delimiters.
pub fn cut_sentences(text: &str) -> (r: Vec<String>)
    ensures
        texts(r@) == sentences_cut(text@),
{
    proof {
        reveal_strlit("@@@@@@@@");
        reveal_strlit("@@@@");
    }
    let s = collapse(chars_of(text), "@@@@@@@@", "@@@@");
    split_text(&s, "@@@@")
}

/// Splits a paragraph into sentences.
pub fn split_sentences(text: &str) -> (r: Vec<String>)
    ensures
        texts(r@) == sentences_of(text@),
{
    proof {
        reveal_strlit("\n");
    }
    let s = string_from(&replace_text(&chars_of(text), "\n", "\n@@@@"));
    let s = regex_replace_all(DOT_PATTERN, s.as_str(), DOT_REPLACEMENT);
    let s = mark_sentences(s.as_str());
    let s = regex_replace_all(URL_PATTERN, s.as_str(), URL_REPLACEMENT);
    cut_sentences(s.as_str())
}

/// What a character becomes before multi-character symbols are restored: the bar
/// its placeholder, a space or line end the delimiter, a symbol itself between
/// two delimiters.
pub open spec fn char_marked(c: char) -> Seq<char> {
    if c == '|' {
        "||ææææ||"@
    } else if c == '\n' || c == ' ' {
        "||"@
    } else if SYMBOLS@.contains(c) {
        seq!['|', '|', c, '|', '|']
    } else {
        seq![c]
    }
}

/// Every character of `s` so marked.
pub open spec fn chars_marked(s: Seq<char>) -> Seq<char>
    decreases s.len(),
{
    if s.len() == 0 {
        Seq::empty()
    } else {
        chars_marked(s.drop_last()) + char_marked(s.last())
    }
}

/// The symbols of more than one character put together again.
pub open spec fn symbols_joined(s: Seq<char>) -> Seq<char> {
    let s = replaced(s, "[||||["@, "[["@);
    let s = replaced(s, "]||||]"@, "]]"@);
    let s = replaced(s, "{||||{"@, "{{"@);
    let s = replaced(s, "}||||}"@, "}}"@);
    let s = replaced(s, "<||||!||||-||||-||"@, "||<!--||"@);
    replaced(s, "||-||||-||||>"@, "||-->||"@)
}

/// A piece as a token: the bar for its placeholder.
pub open spec fn token_of(piece: Seq<char>) -> Seq<char> {
    if piece == "ææææ"@ {
        "|"@
    } else {
        piece
    }
}

/// The non-empty pieces as tokens.
pub open spec fn tokens_kept(pieces: Seq<Seq<char>>) -> Seq<Seq<char>>
    decreases pieces.len(),
{
    if pieces.len() == 0 {
        Seq::empty()
    } else if pieces.last().len() == 0 {
        tokens_kept(pieces.drop_last())
    } else {
        tokens_kept(pieces.drop_last()).push(token_of(pieces.last()))
    }
}

/// The tokens of a text whose tokens lie between runs of the delimiter.
pub open spec fn tokens_cut(s: Seq<char>) -> Seq<Seq<char>> {
    tokens_kept(split_on(collapsed(s, "||||"@, "||"@), "||"@))
}

/// The tokens of a sentence.
pub open spec fn tokens_of(s: Seq<char>) -> Seq<Seq<char>> {
    tokens_cut(wrapped_cjk(symbols_joined(chars_marked(s))))
}

proof fn lemma_wrapped_none(s: Seq<char>)
    requires
        !has_cjk(s),
    ensures
        wrapped_cjk(s) == s,
    decreases s.len(),
{
    if s.len() > 0 {
        assert forall|i: int| 0 <= i < s.drop_last().len() implies !is_cjk(
            #[trigger] s.drop_last()[i],
        ) by {
            assert(s.drop_last()[i] == s[i]);
        }
        lemma_wrapped_none(s.drop_last());
        assert(!is_cjk(s[s.len() - 1]));
        assert(s.drop_last() + seq![s.last()] =~= s);
    } else {
        assert(wrapped_cjk(s) =~= s);
    }
}

/// Whether `c` is among the characters.
fn among(set: &Vec<char>, c: char) -> (r: bool)
    ensures
        r == set@.contains(c),
{
    let mut i: usize = 0;
    while i < set.len()
        invariant
            i <= set@.len(),
            forall|k: int| 0 <= k < i ==> set@[k] != c,
        decreases set@.len() - i,
    {
        if set[i] == c {
            return true;
        }
        i = i + 1;
    }
    false
}

fn mark_chars(s: &Vec<char>) -> (out: Vec<char>)
    ensures
        out@ == chars_marked(s@),
{
    let symbols = chars_of(SYMBOLS);
    let bar = chars_of("||ææææ||");
    let gap = chars_of("||");
    proof {
        reveal_strlit("||");
    }
    let mut out: Vec<char> = Vec::new();
    let mut i: usize = 0;
    while i < s.len()
        invariant
            i <= s@.len(),
            symbols@ == SYMBOLS@,
            bar@ == "||ææææ||"@,
            gap@ == "||"@,
            "||"@ == seq!['|', '|'],
            out@ == chars_marked(s@.take(i as int)),
        decreases s@.len() - i,
    {
        let ghost out0 = out@;
        let c = s[i];
        if c == '|' {
            push_all(&mut out, bar.as_slice());
        } else if c == '\n' || c == ' ' {
            push_all(&mut out, gap.as_slice());
        } else if among(&symbols, c) {
            push_all(&mut out, gap.as_slice());
            out.push(c);
            push_all(&mut out, gap.as_slice());
            proof {
                assert(out@ =~= out0 + seq!['|', '|', c, '|', '|']);
            }
        } else {
            out.push(c);
            proof {
                assert(out@ =~= out0 + seq![c]);
            }
        }
        proof {
            assert(s@.take(i + 1).drop_last() =~= s@.take(i as int));
            assert(s@.take(i + 1).last() == c);
        }
        i = i + 1;
    }
    proof {
        assert(s@.take(i as int) =~= s@);
    }
    out
}

/// Cuts a marked text into tokens.
pub fn cut_tokens(text: &str) -> (r: Vec<String>)
    ensures
        texts(r@) == tokens_cut(text@),
{
    proof {
        reveal_strlit("||||");
        reveal_strlit("||");
    }
    let s = collapse(chars_of(text), "||||", "||");
    let pieces = split_text(&s, "||");
    let bar = "ææææ".to_owned();
    let mut r: Vec<String> = Vec::new();
    let mut i: usize = 0;
    while i < pieces.len()
        invariant
            i <= pieces@.len(),
            bar@ == "ææææ"@,
            texts(r@) == tokens_kept(texts(pieces@).take(i as int)),
        decreases pieces@.len() - i,
    {
        let ghost r0 = r@;
        proof {
            assert(texts(pieces@).take(i + 1).drop_last() =~= texts(pieces@).take(i as int));
            assert(texts(pieces@).take(i + 1).last() == pieces@[i as int]@);
        }
        if !pieces[i].as_str().is_empty() {
            let t = if pieces[i] == bar {
                "|".to_owned()
            } else {
                pieces[i].clone()
            };
            r.push(t);
            proof {
                assert(texts(r@) =~= texts(r0).push(t@));
            }
        }
        i = i + 1;
    }
    proof {
        assert(texts(pieces@).take(i as int) =~= texts(pieces@));
    }
    r
}

/// Splits a sentence into tokens.
pub fn split_tokens(text: &str) -> (r: Vec<String>)
    ensures
        texts(r@) == tokens_of(text@),
{
    proof {
        reveal_strlit("[||||[");
        reveal_strlit("]||||]");
        reveal_strlit("{||||{");
        reveal_strlit("}||||}");
        reveal_strlit("<||||!||||-||||-||");
        reveal_strlit("||-||||-||||>");
    }
    let s = mark_chars(&chars_of(text));
    let s = replace_text(&s, "[||||[", "[[");
    let s = replace_text(&s, "]||||]", "]]");
    let s = replace_text(&s, "{||||{", "{{");
    let s = replace_text(&s, "}||||}", "}}");
    let s = replace_text(&s, "<||||!||||-||||-||", "||<!--||");
    let s = replace_text(&s, "||-||||-||||>", "||-->||");
    let s = string_from(&s);
    if !s.as_str().is_ascii() && regex_is_match(CJK_PATTERN, s.as_str()) {
        let s = regex_replace_all(CJK_PATTERN, s.as_str(), CJK_REPLACEMENT);
        cut_tokens(s.as_str())
    } else {
        proof {
            lemma_wrapped_none(s@);
        }
        cut_tokens(s.as_str())
    }
}

/// The tokens of the sentences of a paragraph, blank sentences skipped.
pub open spec fn sentence_tokens(sentences: Seq<Seq<char>>) -> Seq<Seq<char>>
    decreases sentences.len(),
{
    if sentences.len() == 0 {
        Seq::empty()
    } else {
        let t = trimmed(sentences.last());
        sentence_tokens(sentences.drop_last()) + if t.len() == 0 {
            Seq::empty()
        } else {
            tokens_of(t)
        }
    }
}

/// The tokens of the paragraphs, blank ones skipped.
pub open spec fn paragraph_tokens(paragraphs: Seq<Seq<char>>) -> Seq<Seq<char>>
    decreases paragraphs.len(),
{
    if paragraphs.len() == 0 {
        Seq::empty()
    } else {
        paragraph_tokens(paragraphs.drop_last()) + if trimmed(paragraphs.last()).len() == 0 {
            Seq::empty()
        } else {
            sentence_tokens(sentences_of(paragraphs.last()))
        }
    }
}

/// Appends the strings of `v` to `r`.
fn push_texts(r: &mut Vec<String>, v: &Vec<String>)
    ensures
        texts(final(r)@) == texts(old(r)@) + texts(v@),
{
    let mut i: usize = 0;
    proof {
        assert(texts(r@) + texts(v@).take(0) =~= texts(r@));
    }
    while i < v.len()
        invariant
            i <= v@.len(),
            texts(r@) == texts(old(r)@) + texts(v@).take(i as int),
        decreases v@.len() - i,
    {
        let ghost r0 = r@;
        r.push(v[i].clone());
        proof {
            assert(texts(r@) =~= texts(r0).push(v@[i as int]@));
            assert(texts(v@).take(i + 1) =~= texts(v@).take(i as int).push(v@[i as int]@));
        }
        i = i + 1;
    }
    proof {
        assert(texts(v@).take(i as int) =~= texts(v@));
    }
}

/// The tokens of a whole text in order.
pub fn tokenize_revision(text: &str) -> (out: Vec<String>)
    ensures
        texts(out@) == paragraph_tokens(paragraphs_of(text@)),
{
    let mut out: Vec<String> = Vec::new();
    let paragraphs = split_paragraphs(text);
    let ghost pv = texts(paragraphs@);
    let mut i: usize = 0;
    while i < paragraphs.len()
        invariant
            i <= paragraphs@.len(),
            pv == texts(paragraphs@),
            texts(out@) == paragraph_tokens(pv.take(i as int)),
        decreases paragraphs@.len() - i,
    {
        let ghost before = texts(out@);
        proof {
            assert(pv.take(i + 1).drop_last() =~= pv.take(i as int));
            assert(pv.take(i + 1).last() == pv[i as int]);
        }
        if !trim_text(paragraphs[i].as_str()).as_str().is_empty() {
            let sentences = split_sentences(paragraphs[i].as_str());
            let ghost sv = texts(sentences@);
            let mut k: usize = 0;
            proof {
                assert(before + sentence_tokens(sv.take(0)) =~= before);
            }
            while k < sentences.len()
                invariant
                    k <= sentences@.len(),
                    sv == texts(sentences@),
                    texts(out@) == before + sentence_tokens(sv.take(k as int)),
                decreases sentences@.len() - k,
            {
                proof {
                    assert(sv.take(k + 1).drop_last() =~= sv.take(k as int));
                    assert(sv.take(k + 1).last() == sv[k as int]);
                }
                let t = trim_text(sentences[k].as_str());
                if !t.as_str().is_empty() {
                    let tokens = split_tokens(t.as_str());
                    push_texts(&mut out, &tokens);
                    proof {
                        assert(texts(out@) =~= before + sentence_tokens(sv.take(k + 1)));
                    }
                } else {
                    proof {
                        assert(sentence_tokens(sv.take(k + 1)) =~= sentence_tokens(
                            sv.take(k as int),
                        ));
                    }
                }
                k = k + 1;
            }
            proof {
                assert(sv.take(k as int) =~= sv);
            }
        } else {
            proof {
                assert(paragraph_tokens(pv.take(i + 1)) =~= paragraph_tokens(pv.take(i as int)));
            }
        }
        i = i + 1;
    }
    proof {
        assert(pv.take(i as int) =~= pv);
    }
    out
}

/// Whether `s` holds neither a space nor a line end.
pub open spec fn is_solid(s: Seq<char>) -> bool {
    !s.contains(' ') && !s.contains('\n')
}

proof fn lemma_solid_add(s: Seq<char>, t: Seq<char>)
    ensures
        is_solid(s + t) <==> is_solid(s) && is_solid(t),
{
    let u = s + t;
    assert forall|c: char| #[trigger] u.contains(c) <==> s.contains(c) || t.contains(c) by {
        if s.contains(c) {
            let i = choose|i: int| 0 <= i < s.len() && s[i] == c;
            assert(u[i] == c);
        }
        if t.contains(c) {
            let i = choose|i: int| 0 <= i < t.len() && t[i] == c;
            assert(u[s.len() + i] == c);
        }
        if u.contains(c) {
            let i = choose|i: int| 0 <= i < u.len() && u[i] == c;
            if i < s.len() {
                assert(s[i] == c);
            } else {
                assert(t[i - s.len()] == c);
            }
        }
    }
}

proof fn lemma_solid_sub(s: Seq<char>, i: int, j: int)
    requires
        is_solid(s),
        0 <= i <= j <= s.len(),
    ensures
        is_solid(s.subrange(i, j)),
{
    let u = s.subrange(i, j);
    assert forall|c: char| #[trigger] u.contains(c) implies s.contains(c) by {
        let k = choose|k: int| 0 <= k < u.len() && u[k] == c;
        assert(s[i + k] == c);
    }
}

proof fn lemma_solid_replaced(s: Seq<char>, p: Seq<char>, r: Seq<char>, i: int)
    requires
        is_solid(s),
        is_solid(r),
        p.len() > 0,
        0 <= i,
    ensures
        is_solid(replaced_from(s, p, r, i)),
    decreases s.len() - i,
{
    if i < s.len() {
        if occurs_at(s, p, i) {
            lemma_solid_replaced(s, p, r, i + p.len());
            lemma_solid_add(r, replaced_from(s, p, r, i + p.len()));
        } else {
            lemma_solid_replaced(s, p, r, i + 1);
            lemma_solid_sub(s, i, i + 1);
            assert(s.subrange(i, i + 1) =~= seq![s[i]]);
            lemma_solid_add(seq![s[i]], replaced_from(s, p, r, i + 1));
        }
    }
}

proof fn lemma_solid_marked(s: Seq<char>)
    ensures
        is_solid(chars_marked(s)),
    decreases s.len(),
{
    reveal_strlit("||ææææ||");
    reveal_strlit("||");
    if s.len() > 0 {
        lemma_solid_marked(s.drop_last());
        lemma_solid_add(chars_marked(s.drop_last()), char_marked(s.last()));
    }
}

proof fn lemma_solid_wrapped(s: Seq<char>)
    requires
        is_solid(s),
    ensures
        is_solid(wrapped_cjk(s)),
    decreases s.len(),
{
    if s.len() > 0 {
        let n = s.len() as int;
        lemma_solid_sub(s, 0, n - 1);
        assert(s.subrange(0, n - 1) =~= s.drop_last());
        lemma_solid_wrapped(s.drop_last());
        assert(s.contains(s[n - 1]));
        let last = if is_cjk(s.last()) {
            seq!['|', '|', s.last(), '|', '|']
        } else {
            seq![s.last()]
        };
        assert(is_solid(last));
        lemma_solid_add(wrapped_cjk(s.drop_last()), last);
    }
}

proof fn lemma_solid_collapsed(s: Seq<char>, p: Seq<char>, r: Seq<char>)
    requires
        is_solid(s),
        is_solid(r),
        p.len() > 0,
    ensures
        is_solid(collapsed(s, p, r)),
    decreases s.len(),
{
    if r.len() < p.len() && occurs_in(s, p) {
        lemma_replaced_shrinks(s, p, r, 0);
        let k = choose|k: int| #[trigger] occurs_at(s, p, k);
        assert(0 <= k && occurs_at(s, p, k));
        lemma_solid_replaced(s, p, r, 0);
        lemma_solid_collapsed(replaced(s, p, r), p, r);
    }
}

proof fn lemma_solid_pieces(s: Seq<char>, d: Seq<char>, start: int, i: int)
    requires
        is_solid(s),
        0 <= start <= i,
        start <= s.len(),
    ensures
        forall|k: int|
            0 <= k < split_from(s, d, start, i).len() ==> is_solid(
                #[trigger] split_from(s, d, start, i)[k],
            ),
    decreases s.len() - i,
{
    let v = split_from(s, d, start, i);
    if i < 0 || i >= s.len() || d.len() == 0 {
        lemma_solid_sub(s, start, s.len() as int);
        assert forall|k: int| 0 <= k < v.len() implies is_solid(#[trigger] v[k]) by {
            assert(v[k] == s.subrange(start, s.len() as int));
        }
    } else if occurs_at(s, d, i) {
        let n = i + d.len();
        lemma_solid_pieces(s, d, n, n);
        lemma_solid_sub(s, start, i);
        assert forall|k: int| 0 <= k < v.len() implies is_solid(#[trigger] v[k]) by {
            if k > 0 {
                assert(v[k] == split_from(s, d, n, n)[k - 1]);
            }
        }
    } else {
        lemma_solid_pieces(s, d, start, i + 1);
        assert(v == split_from(s, d, start, i + 1));
    }
}

proof fn lemma_solid_kept(pieces: Seq<Seq<char>>)
    requires
        forall|k: int| 0 <= k < pieces.len() ==> is_solid(#[trigger] pieces[k]),
    ensures
        forall|k: int|
            0 <= k < tokens_kept(pieces).len() ==> is_solid(#[trigger] tokens_kept(pieces)[k])
                && tokens_kept(pieces)[k].len() > 0,
    decreases pieces.len(),
{
    reveal_strlit("|");
    if pieces.len() > 0 {
        let rest = pieces.drop_last();
        assert forall|k: int| 0 <= k < rest.len() implies is_solid(#[trigger] rest[k]) by {
            assert(rest[k] == pieces[k]);
        }
        lemma_solid_kept(rest);
        assert(is_solid(pieces[pieces.len() - 1]));
        assert(is_solid("|"@));
        let t = tokens_kept(pieces);
        assert forall|k: int| 0 <= k < t.len() implies is_solid(#[trigger] t[k]) && t[k].len()
            > 0 by {
            if pieces.last().len() == 0 || k < tokens_kept(rest).len() {
                assert(t[k] == tokens_kept(rest)[k]);
            } else {
                assert(t[k] == token_of(pieces.last()));
            }
        }
    }
}

/// No token is empty or holds a space or a line end.
pub proof fn tokens_are_solid(s: Seq<char>)
    ensures
        forall|k: int|
            0 <= k < tokens_of(s).len() ==> is_solid(#[trigger] tokens_of(s)[k]) && tokens_of(
                s,
            )[k].len() > 0,
{
    reveal_strlit("[||||[");
    reveal_strlit("[[");
    reveal_strlit("]||||]");
    reveal_strlit("]]");
    reveal_strlit("{||||{");
    reveal_strlit("{{");
    reveal_strlit("}||||}");
    reveal_strlit("}}");
    reveal_strlit("<||||!||||-||||-||");
    reveal_strlit("||<!--||");
    reveal_strlit("||-||||-||||>");
    reveal_strlit("||-->||");
    reveal_strlit("||||");
    reveal_strlit("||");
    let a = chars_marked(s);
    lemma_solid_marked(s);
    lemma_solid_replaced(a, "[||||["@, "[["@, 0);
    let a = replaced(a, "[||||["@, "[["@);
    lemma_solid_replaced(a, "]||||]"@, "]]"@, 0);
    let a = replaced(a, "]||||]"@, "]]"@);
    lemma_solid_replaced(a, "{||||{"@, "{{"@, 0);
    let a = replaced(a, "{||||{"@, "{{"@);
    lemma_solid_replaced(a, "}||||}"@, "}}"@, 0);
    let a = replaced(a, "}||||}"@, "}}"@);
    lemma_solid_replaced(a, "<||||!||||-||||-||"@, "||<!--||"@, 0);
    let a = replaced(a, "<||||!||||-||||-||"@, "||<!--||"@);
    lemma_solid_replaced(a, "||-||||-||||>"@, "||-->||"@, 0);
    let a = replaced(a, "||-||||-||||>"@, "||-->||"@);
    lemma_solid_wrapped(a);
    lemma_solid_collapsed(wrapped_cjk(a), "||||"@, "||"@);
    let c = collapsed(wrapped_cjk(a), "||||"@, "||"@);
    lemma_solid_pieces(c, "||"@, 0, 0);
    lemma_solid_kept(split_on(c, "||"@));
}

/// Whether the bars of `s` come in pairs.
spec fn is_paired(s: Seq<char>) -> bool
    decreases s.len(),
{
    if s.len() == 0 {
        true
    } else if s[0] != '|' {
        is_paired(s.skip(1))
    } else {
        s.len() > 1 && s[1] == '|' && is_paired(s.skip(2))
    }
}

proof fn lemma_paired_add(s: Seq<char>, t: Seq<char>)
    requires
        is_paired(s),
    ensures
        is_paired(s + t) == is_paired(t),
    decreases s.len(),
{
    if s.len() == 0 {
        assert(s + t =~= t);
    } else if s[0] != '|' {
        assert((s + t).skip(1) =~= s.skip(1) + t);
        lemma_paired_add(s.skip(1), t);
    } else {
        assert((s + t).skip(2) =~= s.skip(2) + t);
        lemma_paired_add(s.skip(2), t);
    }
}

/// Whether a pattern that begins with a bar goes on with another one and no more, or
/// is made of four.
spec fn is_pair_pattern(p: Seq<char>) -> bool {
    &&& is_paired(p)
    &&& p.len() > 0
    &&& p[0] == '|' ==> (p.len() > 2 && p[1] == '|' && p[2] != '|') || p == "||||"@
}

/// A pattern does not occur in the middle of a pair.
proof fn lemma_not_between(s: Seq<char>, p: Seq<char>, i: int)
    requires
        is_pair_pattern(p),
        0 <= i < s.len(),
        s[i] == '|',
        is_paired(s.skip(i)),
        !occurs_at(s, p, i),
    ensures
        i + 1 < s.len(),
        s[i + 1] == '|',
        is_paired(s.skip(i + 2)),
        !occurs_at(s, p, i + 1),
{
    reveal_strlit("||||");
    let t = s.skip(i);
    assert(t[0] == s[i] && t[1] == s[i + 1]);
    assert(t.skip(2) =~= s.skip(i + 2));
    if occurs_at(s, p, i + 1) {
        let u = s.subrange(i + 1, i + 1 + p.len());
        assert(u[0] == p[0] && p[0] == '|');
        assert(u[1] == p[1] && u[1] == s[i + 2]);
        assert(u[2] == p[2] && u[2] == s[i + 3]);
        let v = s.skip(i + 2);
        assert(v[0] == s[i + 2] && v[1] == s[i + 3]);
        if p == "||||"@ {
            assert(s.subrange(i, i + 4) =~= p);
        }
    }
}

proof fn lemma_paired_replaced(s: Seq<char>, p: Seq<char>, r: Seq<char>, i: int)
    requires
        is_pair_pattern(p),
        is_paired(r),
        0 <= i <= s.len(),
        is_paired(s.skip(i)),
    ensures
        is_paired(replaced_from(s, p, r, i)),
    decreases s.len() - i,
{
    if i < s.len() {
        if occurs_at(s, p, i) {
            let n = i + p.len();
            assert(s.skip(i) =~= p + s.skip(n));
            lemma_paired_add(p, s.skip(n));
            lemma_paired_replaced(s, p, r, n);
            lemma_paired_add(r, replaced_from(s, p, r, n));
        } else if s[i] == '|' {
            lemma_not_between(s, p, i);
            lemma_paired_replaced(s, p, r, i + 2);
            let rest = replaced_from(s, p, r, i + 2);
            let all = replaced_from(s, p, r, i);
            assert(replaced_from(s, p, r, i + 1) == seq![s[i + 1]] + rest);
            assert(all.skip(2) =~= rest);
        } else {
            assert(s.skip(i).skip(1) =~= s.skip(i + 1));
            lemma_paired_replaced(s, p, r, i + 1);
            let rest = replaced_from(s, p, r, i + 1);
            assert((seq![s[i]] + rest).skip(1) =~= rest);
        }
    } else {
        assert(replaced_from(s, p, r, i) =~= Seq::empty());
    }
}

proof fn lemma_paired_replace(s: Seq<char>, p: Seq<char>, r: Seq<char>)
    requires
        is_pair_pattern(p),
        is_paired(r),
        is_paired(s),
    ensures
        is_paired(replaced(s, p, r)),
{
    assert(s.skip(0) =~= s);
    lemma_paired_replaced(s, p, r, 0);
}

proof fn lemma_paired_collapsed(s: Seq<char>)
    requires
        is_paired(s),
    ensures
        is_paired(collapsed(s, "||||"@, "||"@)),
    decreases s.len(),
{
    let p = "||||"@;
    let r = "||"@;
    reveal_strlit("||||");
    reveal_strlit("||");
    if occurs_in(s, p) {
        reveal_with_fuel(is_paired, 4);
        lemma_replaced_shrinks(s, p, r, 0);
        let k = choose|k: int| #[trigger] occurs_at(s, p, k);
        assert(0 <= k && occurs_at(s, p, k));
        lemma_paired_replace(s, p, r);
        lemma_paired_collapsed(replaced(s, p, r));
    }
}

/// A character between two delimiters.
proof fn lemma_paired_wrap(c: char)
    requires
        c != '|',
    ensures
        is_paired(seq![c]),
        is_paired(seq!['|', '|', c, '|', '|']),
{
    reveal_with_fuel(is_paired, 4);
    let w = seq!['|', '|', c, '|', '|'];
    assert(w.skip(2)[0] == c);
    assert(w.skip(2).skip(1)[0] == '|');
}

proof fn lemma_paired_marked(s: Seq<char>)
    ensures
        is_paired(chars_marked(s)),
    decreases s.len(),
{
    if s.len() > 0 {
        let c = s.last();
        reveal_strlit("||ææææ||");
        reveal_strlit("||");
        lemma_paired_marked(s.drop_last());
        if c != '|' {
            lemma_paired_wrap(c);
        }
        assert(is_paired(char_marked(c))) by {
            reveal_with_fuel(is_paired, 7);
        }
        lemma_paired_add(chars_marked(s.drop_last()), char_marked(c));
    }
}

/// Wrapping goes on piece by piece.
proof fn lemma_wrapped_add(s: Seq<char>, t: Seq<char>)
    ensures
        wrapped_cjk(s + t) == wrapped_cjk(s) + wrapped_cjk(t),
    decreases t.len(),
{
    if t.len() == 0 {
        assert(s + t =~= s);
        assert(wrapped_cjk(s) + wrapped_cjk(t) =~= wrapped_cjk(s));
    } else {
        assert((s + t).drop_last() =~= s + t.drop_last());
        lemma_wrapped_add(s, t.drop_last());
        assert(wrapped_cjk(s + t) =~= wrapped_cjk(s) + wrapped_cjk(t));
    }
}

proof fn lemma_paired_wrapped(s: Seq<char>)
    requires
        is_paired(s),
    ensures
        is_paired(wrapped_cjk(s)),
    decreases s.len(),
{
    if s.len() > 0 {
        let n: int = if s[0] == '|' {
            2
        } else {
            1
        };
        let head = s.take(n);
        assert(s =~= head + s.skip(n));
        lemma_wrapped_add(head, s.skip(n));
        lemma_paired_wrapped(s.skip(n));
        assert(is_paired(wrapped_cjk(head))) by {
            if n == 1 {
                lemma_paired_wrap(s[0]);
                assert(head =~= seq![s[0]]);
                assert(head.drop_last() =~= Seq::empty());
                assert(wrapped_cjk(head.drop_last()) =~= Seq::empty());
                assert(wrapped_cjk(head) =~= if is_cjk(s[0]) {
                    seq!['|', '|', s[0], '|', '|']
                } else {
                    seq![s[0]]
                });
            } else {
                assert(head[0] == '|' && head[1] == '|');
                assert(!is_cjk('|'));
                lemma_wrapped_none(head);
                assert(head.skip(2) =~= Seq::empty());
                assert(is_paired(head.skip(2)));
                assert(is_paired(head));
            }
        }
        lemma_paired_add(wrapped_cjk(head), wrapped_cjk(s.skip(n)));
    }
}

/// Between delimiters no bar is left.
proof fn lemma_pieces_barless(s: Seq<char>, start: int, i: int)
    requires
        0 <= start <= i <= s.len(),
        is_paired(s.skip(i)),
        forall|k: int| start <= k < i ==> s[k] != '|',
    ensures
        forall|k: int|
            0 <= k < split_from(s, "||"@, start, i).len() ==> !(#[trigger] split_from(
                s,
                "||"@,
                start,
                i,
            )[k]).contains('|'),
    decreases s.len() - i,
{
    let d = "||"@;
    reveal_strlit("||");
    let v = split_from(s, d, start, i);
    if i < s.len() {
        let t = s.skip(i);
        assert(t[0] == s[i]);
        if s[i] == '|' {
            assert(t[1] == s[i + 1]);
            assert(s.subrange(i, i + 2) =~= d);
            assert(occurs_at(s, d, i));
            assert(t.skip(2) =~= s.skip(i + 2));
            lemma_pieces_barless(s, i + 2, i + 2);
            let rest = split_from(s, d, i + 2, i + 2);
            assert(v == seq![s.subrange(start, i)] + rest);
            assert forall|k: int| 0 <= k < v.len() implies !(#[trigger] v[k]).contains('|') by {
                if k > 0 {
                    assert(v[k] == rest[k - 1]);
                } else {
                    assert(v[k] == s.subrange(start, i));
                }
            }
        } else {
            if occurs_at(s, d, i) {
                assert(s.subrange(i, i + 2)[0] == s[i]);
            }
            assert(t.skip(1) =~= s.skip(i + 1));
            lemma_pieces_barless(s, start, i + 1);
            assert(v == split_from(s, d, start, i + 1));
        }
    } else {
        assert(v =~= seq![s.subrange(start, i)]);
        assert(!v[0].contains('|'));
    }
}

proof fn lemma_kept_barless(pieces: Seq<Seq<char>>)
    requires
        forall|k: int| 0 <= k < pieces.len() ==> !(#[trigger] pieces[k]).contains('|'),
    ensures
        forall|k: int|
            0 <= k < tokens_kept(pieces).len() ==> (#[trigger] tokens_kept(pieces)[k]) == "|"@
                || !tokens_kept(pieces)[k].contains('|'),
    decreases pieces.len(),
{
    if pieces.len() > 0 {
        let rest = pieces.drop_last();
        assert forall|k: int| 0 <= k < rest.len() implies !(#[trigger] rest[k]).contains('|') by {
            assert(rest[k] == pieces[k]);
        }
        lemma_kept_barless(rest);
        assert(!pieces[pieces.len() - 1].contains('|'));
        let t = tokens_kept(pieces);
        assert forall|k: int| 0 <= k < t.len() implies (#[trigger] t[k]) == "|"@ || !t[k].contains(
            '|',
        ) by {
            if pieces.last().len() == 0 || k < tokens_kept(rest).len() {
                assert(t[k] == tokens_kept(rest)[k]);
            } else {
                assert(t[k] == token_of(pieces.last()));
            }
        }
    }
}

/// No token holds a bar but the bar itself.
pub proof fn bars_stand_alone(s: Seq<char>)
    ensures
        forall|k: int|
            0 <= k < tokens_of(s).len() ==> (#[trigger] tokens_of(s)[k]) == "|"@ || !tokens_of(
                s,
            )[k].contains('|'),
{
    let a = chars_marked(s);
    lemma_paired_marked(s);
    lemma_paired_joined(a);
    let b = symbols_joined(a);
    lemma_paired_wrapped(b);
    lemma_paired_collapsed(wrapped_cjk(b));
    let c = collapsed(wrapped_cjk(b), "||||"@, "||"@);
    assert(c.skip(0) =~= c);
    lemma_pieces_barless(c, 0, 0);
    lemma_kept_barless(split_on(c, "||"@));
}

/// Two signs with two delimiters between them, put together.
proof fn lemma_paired_double(s: Seq<char>, p: Seq<char>, r: Seq<char>, c: char)
    requires
        is_paired(s),
        c != '|',
        p == seq![c, '|', '|', '|', '|', c],
        r == seq![c, c],
    ensures
        is_paired(replaced(s, p, r)),
{
    assert(is_paired(p) && is_paired(r)) by {
        reveal_with_fuel(is_paired, 7);
    }
    lemma_paired_replace(s, p, r);
}

proof fn lemma_paired_joined(s: Seq<char>)
    requires
        is_paired(s),
    ensures
        is_paired(symbols_joined(s)),
{
    reveal_strlit("[||||[");
    reveal_strlit("[[");
    reveal_strlit("]||||]");
    reveal_strlit("]]");
    reveal_strlit("{||||{");
    reveal_strlit("{{");
    reveal_strlit("}||||}");
    reveal_strlit("}}");
    reveal_strlit("<||||!||||-||||-||");
    reveal_strlit("||<!--||");
    reveal_strlit("||-||||-||||>");
    reveal_strlit("||-->||");
    assert("[||||["@ =~= seq!['[', '|', '|', '|', '|', '[']);
    assert("[["@ =~= seq!['[', '[']);
    assert("]||||]"@ =~= seq![']', '|', '|', '|', '|', ']']);
    assert("]]"@ =~= seq![']', ']']);
    assert("{||||{"@ =~= seq!['{', '|', '|', '|', '|', '{']);
    assert("{{"@ =~= seq!['{', '{']);
    assert("}||||}"@ =~= seq!['}', '|', '|', '|', '|', '}']);
    assert("}}"@ =~= seq!['}', '}']);
    let a = replaced(s, "[||||["@, "[["@);
    lemma_paired_double(s, "[||||["@, "[["@, '[');
    let b = replaced(a, "]||||]"@, "]]"@);
    lemma_paired_double(a, "]||||]"@, "]]"@, ']');
    let c = replaced(b, "{||||{"@, "{{"@);
    lemma_paired_double(b, "{||||{"@, "{{"@, '{');
    let d = replaced(c, "}||||}"@, "}}"@);
    lemma_paired_double(c, "}||||}"@, "}}"@, '}');
    lemma_paired_comments();
    let e = replaced(d, "<||||!||||-||||-||"@, "||<!--||"@);
    lemma_paired_replace(d, "<||||!||||-||||-||"@, "||<!--||"@);
    lemma_paired_replace(e, "||-||||-||||>"@, "||-->||"@);
}

proof fn lemma_paired_comments()
    ensures
        is_paired("<||||!||||-||||-||"@),
        is_paired("||<!--||"@),
        is_paired("||-||||-||||>"@),
        is_paired("||-->||"@),
{
    reveal_strlit("<||||!||||-||||-||");
    reveal_strlit("||<!--||");
    reveal_strlit("||-||||-||||>");
    reveal_strlit("||-->||");
    reveal_with_fuel(is_paired, 13);
}

/// Whether `s` holds anything but bars.
pub open spec fn has_content(s: Seq<char>) -> bool {
    exists|i: int| 0 <= i < s.len() && #[trigger] s[i] != '|'
}

proof fn lemma_content_add(s: Seq<char>, t: Seq<char>)
    ensures
        has_content(s + t) <==> has_content(s) || has_content(t),
{
    let u = s + t;
    if has_content(s) {
        let i = choose|i: int| 0 <= i < s.len() && #[trigger] s[i] != '|';
        assert(u[i] != '|');
    }
    if has_content(t) {
        let i = choose|i: int| 0 <= i < t.len() && #[trigger] t[i] != '|';
        assert(u[s.len() + i] != '|');
    }
    if has_content(u) {
        let i = choose|i: int| 0 <= i < u.len() && #[trigger] u[i] != '|';
        if i < s.len() {
            assert(s[i] != '|');
        } else {
            assert(t[i - s.len()] != '|');
        }
    }
}

proof fn lemma_content_replaced(s: Seq<char>, p: Seq<char>, r: Seq<char>, i: int, j: int)
    requires
        0 <= i <= j < s.len(),
        s[j] != '|',
        p.len() > 0,
        has_content(p) ==> has_content(r),
    ensures
        has_content(replaced_from(s, p, r, i)),
    decreases s.len() - i,
{
    if occurs_at(s, p, i) {
        let rest = replaced_from(s, p, r, i + p.len());
        if j < i + p.len() {
            assert(p[j - i] == s.subrange(i, i + p.len())[j - i]);
            assert(has_content(p));
        } else {
            lemma_content_replaced(s, p, r, i + p.len(), j);
        }
        lemma_content_add(r, rest);
    } else {
        let rest = replaced_from(s, p, r, i + 1);
        if i == j {
            assert(seq![s[i]][0] != '|');
        } else {
            lemma_content_replaced(s, p, r, i + 1, j);
        }
        lemma_content_add(seq![s[i]], rest);
    }
}

proof fn lemma_content_kept(s: Seq<char>, p: Seq<char>, r: Seq<char>)
    requires
        has_content(s),
        p.len() > 0,
        has_content(p) ==> has_content(r),
    ensures
        has_content(replaced(s, p, r)),
{
    let j = choose|j: int| 0 <= j < s.len() && #[trigger] s[j] != '|';
    lemma_content_replaced(s, p, r, 0, j);
}

proof fn lemma_content_marked(s: Seq<char>, k: int)
    requires
        0 <= k < s.len(),
        s[k] != ' ',
        s[k] != '\n',
    ensures
        has_content(chars_marked(s)),
    decreases s.len(),
{
    reveal_strlit("||ææææ||");
    let last = char_marked(s.last());
    if k < s.len() - 1 {
        assert(s.drop_last()[k] == s[k]);
        lemma_content_marked(s.drop_last(), k);
    } else if s[k] == '|' {
        assert(last[2] != '|');
    } else if SYMBOLS@.contains(s[k]) {
        assert(last[2] != '|');
    } else {
        assert(last[0] != '|');
    }
    lemma_content_add(chars_marked(s.drop_last()), last);
}

proof fn lemma_content_wrapped(s: Seq<char>)
    requires
        has_content(s),
    ensures
        has_content(wrapped_cjk(s)),
    decreases s.len(),
{
    let i = choose|i: int| 0 <= i < s.len() && #[trigger] s[i] != '|';
    let last = if is_cjk(s.last()) {
        seq!['|', '|', s.last(), '|', '|']
    } else {
        seq![s.last()]
    };
    if i < s.len() - 1 {
        assert(s.drop_last()[i] != '|');
        lemma_content_wrapped(s.drop_last());
    } else if is_cjk(s.last()) {
        assert(last[2] != '|');
    } else {
        assert(last[0] != '|');
    }
    lemma_content_add(wrapped_cjk(s.drop_last()), last);
}

proof fn lemma_content_collapsed(s: Seq<char>, p: Seq<char>, r: Seq<char>)
    requires
        has_content(s),
        p.len() > 0,
        !has_content(p),
    ensures
        has_content(collapsed(s, p, r)),
    decreases s.len(),
{
    if r.len() < p.len() && occurs_in(s, p) {
        lemma_replaced_shrinks(s, p, r, 0);
        let k = choose|k: int| #[trigger] occurs_at(s, p, k);
        assert(0 <= k && occurs_at(s, p, k));
        lemma_content_kept(s, p, r);
        lemma_content_collapsed(replaced(s, p, r), p, r);
    }
}

/// Where a piece or what follows it holds anything but bars, some piece is not
/// empty.
proof fn lemma_some_piece(s: Seq<char>, d: Seq<char>, start: int, i: int, j: int) -> (k: int)
    requires
        0 <= start <= i,
        start <= j < s.len(),
        s[j] != '|',
        !has_content(d),
    ensures
        0 <= k < split_from(s, d, start, i).len(),
        split_from(s, d, start, i)[k].len() > 0,
    decreases s.len() - i,
{
    if i < 0 || i >= s.len() || d.len() == 0 {
        0
    } else if occurs_at(s, d, i) {
        let n = i + d.len();
        if j < i {
            0
        } else {
            if j < n {
                assert(d[j - i] == s.subrange(i, n)[j - i]);
                assert(has_content(d));
            }
            let k = lemma_some_piece(s, d, n, n, j);
            assert(split_from(s, d, start, i)[k + 1] == split_from(s, d, n, n)[k]);
            k + 1
        }
    } else {
        lemma_some_piece(s, d, start, i + 1, j)
    }
}

proof fn lemma_some_kept(pieces: Seq<Seq<char>>, k: int)
    requires
        0 <= k < pieces.len(),
        pieces[k].len() > 0,
    ensures
        tokens_kept(pieces).len() > 0,
    decreases pieces.len(),
{
    if k < pieces.len() - 1 {
        assert(pieces.drop_last()[k] == pieces[k]);
        lemma_some_kept(pieces.drop_last(), k);
    }
}

/// A text that holds anything but spaces and line ends has a token.
pub proof fn text_has_tokens(s: Seq<char>, k: int)
    requires
        0 <= k < s.len(),
        s[k] != ' ',
        s[k] != '\n',
    ensures
        tokens_of(s).len() > 0,
{
    reveal_strlit("[[");
    reveal_strlit("]]");
    reveal_strlit("{{");
    reveal_strlit("}}");
    reveal_strlit("||<!--||");
    reveal_strlit("||-->||");
    reveal_strlit("[||||[");
    reveal_strlit("]||||]");
    reveal_strlit("{||||{");
    reveal_strlit("}||||}");
    reveal_strlit("<||||!||||-||||-||");
    reveal_strlit("||-||||-||||>");
    reveal_strlit("||||");
    reveal_strlit("||");
    let a = chars_marked(s);
    lemma_content_marked(s, k);
    assert("[["@[0] != '|');
    lemma_content_kept(a, "[||||["@, "[["@);
    let a = replaced(a, "[||||["@, "[["@);
    assert("]]"@[0] != '|');
    lemma_content_kept(a, "]||||]"@, "]]"@);
    let a = replaced(a, "]||||]"@, "]]"@);
    assert("{{"@[0] != '|');
    lemma_content_kept(a, "{||||{"@, "{{"@);
    let a = replaced(a, "{||||{"@, "{{"@);
    assert("}}"@[0] != '|');
    lemma_content_kept(a, "}||||}"@, "}}"@);
    let a = replaced(a, "}||||}"@, "}}"@);
    assert("||<!--||"@[2] != '|');
    lemma_content_kept(a, "<||||!||||-||||-||"@, "||<!--||"@);
    let a = replaced(a, "<||||!||||-||||-||"@, "||<!--||"@);
    assert("||-->||"@[2] != '|');
    lemma_content_kept(a, "||-||||-||||>"@, "||-->||"@);
    let a = replaced(a, "||-||||-||||>"@, "||-->||"@);
    lemma_content_wrapped(a);
    assert(!has_content("||||"@));
    assert(!has_content("||"@));
    lemma_content_collapsed(wrapped_cjk(a), "||||"@, "||"@);
    let c = collapsed(wrapped_cjk(a), "||||"@, "||"@);
    let j = choose|j: int| 0 <= j < c.len() && #[trigger] c[j] != '|';
    let n = lemma_some_piece(c, "||"@, 0, 0, j);
    lemma_some_kept(split_on(c, "||"@), n);
}

/// A sentence stored as its tokens joined by spaces gives them back when split
/// at the spaces.
pub proof fn sentence_round_trip(s: Seq<char>)
    requires
        tokens_of(s).len() > 0,
    ensures
        split_on(joined(tokens_of(s), " "@), " "@) == tokens_of(s),
{
    reveal_strlit(" ");
    tokens_are_solid(s);
    let ts = tokens_of(s);
    assert forall|k: int| 0 <= k < ts.len() implies !(#[trigger] ts[k]).contains(' ') by {
        assert(is_solid(ts[k]));
    }
    assert(" "@ =~= seq![' ']);
    split_undoes_join(ts, ' ');
}

/// Whether a token counts towards the average frequency.
pub open spec fn is_structural(t: Seq<char>) -> bool {
    ||| t == "<"@
    ||| t == ">"@
    ||| t == "tr"@
    ||| t == "td"@
    ||| t == "["@
    ||| t == "]"@
    ||| t == "\""@
    ||| t == "*"@
    ||| t == "=="@
    ||| t == "{"@
    ||| t == "}"@
    ||| t == "|"@
    ||| t == "-"@
}

/// The tokens that count towards the average frequency.
pub open spec fn counted(tokens: Seq<Seq<char>>) -> Seq<Seq<char>>
    decreases tokens.len(),
{
    if tokens.len() == 0 {
        Seq::empty()
    } else if is_structural(tokens.last()) {
        counted(tokens.drop_last())
    } else {
        counted(tokens.drop_last()).push(tokens.last())
    }
}

/// How often a counted token occurs on average: their number over the number of
/// distinct ones; zero where there is none.
pub open spec fn word_frequency(tokens: Seq<Seq<char>>) -> (int, int) {
    let c = counted(tokens);
    if c.len() == 0 {
        (0, 1)
    } else {
        (c.len() as int, distinct(c).len() as int)
    }
}

fn structural(t: &str) -> (r: bool)
    ensures
        r == is_structural(t@),
{
    same_text(t, "<") || same_text(t, ">") || same_text(t, "tr") || same_text(t, "td")
        || same_text(t, "[") || same_text(t, "]") || same_text(t, "\"") || same_text(t, "*")
        || same_text(t, "==") || same_text(t, "{") || same_text(t, "}") || same_text(t, "|")
        || same_text(t, "-")
}

/// The average number of occurrences of a token, structural tokens left out.
pub fn avg_word_freq(tokens: &[String]) -> (r: Ratio)
    ensures
        r@ == word_frequency(texts(tokens@)),
{
    let ghost tv = texts(tokens@);
    let mut seen: StringHashSet = StringHashSet::new();
    let mut total: usize = 0;
    let mut kinds: usize = 0;
    let mut i: usize = 0;
    while i < tokens.len()
        invariant
            i <= tokens@.len(),
            tv == texts(tokens@),
            kinds <= total <= i,
            total == counted(tv.take(i as int)).len(),
            kinds == distinct(counted(tv.take(i as int))).len(),
            total > 0 ==> kinds > 0,
            forall|s: Seq<char>|
                seen@.contains(s) <==> #[trigger] distinct(counted(tv.take(i as int))).contains(s),
        decreases tokens@.len() - i,
    {
        let ghost before = counted(tv.take(i as int));
        proof {
            assert(tv.take(i + 1).drop_last() =~= tv.take(i as int));
            assert(tv.take(i + 1).last() == tv[i as int]);
        }
        if !structural(tokens[i].as_str()) {
            total = total + 1;
            let fresh = seen.insert(tokens[i].clone());
            if fresh {
                kinds = kinds + 1;
            }
            proof {
                let now = counted(tv.take(i + 1));
                assert(now.drop_last() =~= before);
                assert(now.last() == tv[i as int]);
                let d0 = distinct(before);
                let d1 = distinct(now);
                assert forall|s: Seq<char>| seen@.contains(s) <==> #[trigger] d1.contains(s) by {
                    if d0.contains(s) {
                        let k = choose|k: int| 0 <= k < d0.len() && d0[k] == s;
                        assert(d1[k] == s);
                    }
                    if !d0.contains(tv[i as int]) {
                        assert(d1[d0.len() as int] == tv[i as int]);
                        if d1.contains(s) && s != tv[i as int] {
                            let k = choose|k: int| 0 <= k < d1.len() && d1[k] == s;
                            assert(d0[k] == s);
                        }
                    }
                }
            }
        }
        i = i + 1;
    }
    proof {
        assert(tv.take(i as int) =~= tv);
    }
    if total == 0 {
        Ratio { num: 0, den: 1 }
    } else {
        Ratio { num: total as u128, den: kinds as u128 }
    }
}

/// The characters of `s` that are none of `gaps`.
pub open spec fn without(s: Seq<char>, gaps: Set<char>) -> Seq<char>
    decreases s.len(),
{
    if s.len() == 0 {
        Seq::empty()
    } else if gaps.contains(s.last()) {
        without(s.drop_last(), gaps)
    } else {
        without(s.drop_last(), gaps).push(s.last())
    }
}

/// The texts, one after the other with nothing between them.
pub open spec fn run_together(parts: Seq<Seq<char>>) -> Seq<char>
    decreases parts.len(),
{
    if parts.len() == 0 {
        Seq::empty()
    } else {
        run_together(parts.drop_last()) + parts.last()
    }
}

spec fn bar() -> Set<char> {
    set!['|']
}

proof fn lemma_without_add(s: Seq<char>, t: Seq<char>, gaps: Set<char>)
    ensures
        without(s + t, gaps) == without(s, gaps) + without(t, gaps),
    decreases t.len(),
{
    if t.len() == 0 {
        assert(s + t =~= s);
        assert(without(s, gaps) + without(t, gaps) =~= without(s, gaps));
    } else {
        assert((s + t).drop_last() =~= s + t.drop_last());
        lemma_without_add(s, t.drop_last(), gaps);
        assert(without(s + t, gaps) =~= without(s, gaps) + without(t, gaps));
    }
}

proof fn lemma_without_none(s: Seq<char>, gaps: Set<char>)
    requires
        forall|i: int| 0 <= i < s.len() ==> !gaps.contains(#[trigger] s[i]),
    ensures
        without(s, gaps) == s,
    decreases s.len(),
{
    if s.len() > 0 {
        let less = s.drop_last();
        assert forall|i: int| 0 <= i < less.len() implies !gaps.contains(#[trigger] less[i]) by {
            assert(less[i] == s[i]);
        }
        lemma_without_none(less, gaps);
        assert(!gaps.contains(s[s.len() - 1]));
        assert(without(s, gaps) =~= s);
    }
}

proof fn lemma_without_one(c: char, gaps: Set<char>)
    ensures
        without(seq![c], gaps) == if gaps.contains(c) {
            Seq::<char>::empty()
        } else {
            seq![c]
        },
{
    assert(seq![c].drop_last() =~= Seq::empty());
    assert(without(seq![c].drop_last(), gaps) =~= Seq::empty());
    assert(Seq::<char>::empty().push(c) =~= seq![c]);
}

proof fn lemma_without_all(s: Seq<char>, gaps: Set<char>)
    requires
        forall|i: int| 0 <= i < s.len() ==> gaps.contains(#[trigger] s[i]),
    ensures
        without(s, gaps) == Seq::<char>::empty(),
    decreases s.len(),
{
    if s.len() > 0 {
        let less = s.drop_last();
        assert forall|i: int| 0 <= i < less.len() implies gaps.contains(#[trigger] less[i]) by {
            assert(less[i] == s[i]);
        }
        lemma_without_all(less, gaps);
        assert(gaps.contains(s[s.len() - 1]));
    }
}

/// What stays of a sign between two delimiters.
proof fn lemma_without_wrap(c: char)
    requires
        c != '|',
    ensures
        without(seq!['|', '|', c, '|', '|'], bar()) == seq![c],
{
    let w = seq!['|', '|', c, '|', '|'];
    let a = seq!['|', '|'];
    let b = seq![c];
    assert(w =~= a + b + a);
    lemma_without_add(a + b, a, bar());
    lemma_without_add(a, b, bar());
    lemma_without_all(a, bar());
    lemma_without_one(c, bar());
    assert(Seq::<char>::empty() + b + Seq::<char>::empty() =~= b);
}

proof fn lemma_without_marked(s: Seq<char>)
    requires
        !s.contains('|'),
    ensures
        without(chars_marked(s), bar()) == without(s, set![' ', '\n']),
    decreases s.len(),
{
    if s.len() > 0 {
        let less = s.drop_last();
        let c = s.last();
        reveal_strlit("||");
        assert(s.contains(s[s.len() - 1]));
        assert(!less.contains('|')) by {
            if less.contains('|') {
                let i = choose|i: int| 0 <= i < less.len() && less[i] == '|';
                assert(s[i] == '|');
            }
        }
        lemma_without_marked(less);
        lemma_without_add(chars_marked(less), char_marked(c), bar());
        lemma_without_wrap(c);
        lemma_without_one(c, bar());
        if c == ' ' || c == '\n' {
            lemma_without_all("||"@, bar());
            assert(without(chars_marked(s), bar()) =~= without(chars_marked(less), bar()));
        } else {
            assert(without(chars_marked(less), bar()) + seq![c] =~= without(
                chars_marked(less),
                bar(),
            ).push(c));
        }
    } else {
        assert(chars_marked(s) =~= Seq::empty());
    }
}

proof fn lemma_without_replaced(s: Seq<char>, p: Seq<char>, r: Seq<char>, i: int, gaps: Set<char>)
    requires
        p.len() > 0,
        without(p, gaps) == without(r, gaps),
        0 <= i <= s.len(),
    ensures
        without(replaced_from(s, p, r, i), gaps) == without(s.skip(i), gaps),
    decreases s.len() - i,
{
    if i < s.len() {
        if occurs_at(s, p, i) {
            let n = i + p.len();
            assert(s.skip(i) =~= p + s.skip(n));
            lemma_without_replaced(s, p, r, n, gaps);
            lemma_without_add(p, s.skip(n), gaps);
            lemma_without_add(r, replaced_from(s, p, r, n), gaps);
        } else {
            assert(s.skip(i) =~= seq![s[i]] + s.skip(i + 1));
            lemma_without_replaced(s, p, r, i + 1, gaps);
            lemma_without_add(seq![s[i]], s.skip(i + 1), gaps);
            lemma_without_add(seq![s[i]], replaced_from(s, p, r, i + 1), gaps);
        }
    } else {
        assert(s.skip(i) =~= Seq::empty());
    }
}

proof fn lemma_without_replace(s: Seq<char>, p: Seq<char>, r: Seq<char>, gaps: Set<char>)
    requires
        p.len() > 0,
        without(p, gaps) == without(r, gaps),
    ensures
        without(replaced(s, p, r), gaps) == without(s, gaps),
{
    lemma_without_replaced(s, p, r, 0, gaps);
    assert(s.skip(0) =~= s);
}

proof fn lemma_without_collapsed(s: Seq<char>)
    ensures
        without(collapsed(s, "||||"@, "||"@), bar()) == without(s, bar()),
    decreases s.len(),
{
    let p = "||||"@;
    let r = "||"@;
    reveal_strlit("||||");
    reveal_strlit("||");
    if occurs_in(s, p) {
        lemma_replaced_shrinks(s, p, r, 0);
        let k = choose|k: int| #[trigger] occurs_at(s, p, k);
        assert(0 <= k && occurs_at(s, p, k));
        lemma_without_all(p, bar());
        lemma_without_all(r, bar());
        lemma_without_replace(s, p, r, bar());
        lemma_without_collapsed(replaced(s, p, r));
    }
}

proof fn lemma_without_wrapped(s: Seq<char>)
    ensures
        without(wrapped_cjk(s), bar()) == without(s, bar()),
    decreases s.len(),
{
    if s.len() > 0 {
        let c = s.last();
        lemma_without_wrapped(s.drop_last());
        let last = if is_cjk(c) {
            seq!['|', '|', c, '|', '|']
        } else {
            seq![c]
        };
        lemma_without_add(wrapped_cjk(s.drop_last()), last, bar());
        lemma_without_one(c, bar());
        assert(!is_cjk('|'));
        if c != '|' {
            lemma_without_wrap(c);
            assert(without(s.drop_last(), bar()) + seq![c] =~= without(s.drop_last(), bar()).push(
                c,
            ));
        } else {
            assert(without(s.drop_last(), bar()) + Seq::<char>::empty() =~= without(
                s.drop_last(),
                bar(),
            ));
        }
    } else {
        assert(wrapped_cjk(s) =~= Seq::empty());
    }
}

proof fn lemma_without_joined(s: Seq<char>)
    ensures
        without(symbols_joined(s), bar()) == without(s, bar()),
{
    reveal_strlit("[||||[");
    reveal_strlit("[[");
    reveal_strlit("]||||]");
    reveal_strlit("]]");
    reveal_strlit("{||||{");
    reveal_strlit("{{");
    reveal_strlit("}||||}");
    reveal_strlit("}}");
    reveal_strlit("<||||!||||-||||-||");
    reveal_strlit("||<!--||");
    reveal_strlit("||-||||-||||>");
    reveal_strlit("||-->||");
    assert(without("[||||["@, bar()) == without("[["@, bar())) by {
        reveal_with_fuel(without, 8);
    }
    assert(without("]||||]"@, bar()) == without("]]"@, bar())) by {
        reveal_with_fuel(without, 8);
    }
    assert(without("{||||{"@, bar()) == without("{{"@, bar())) by {
        reveal_with_fuel(without, 8);
    }
    assert(without("}||||}"@, bar()) == without("}}"@, bar())) by {
        reveal_with_fuel(without, 8);
    }
    assert(without("<||||!||||-||||-||"@, bar()) == without("||<!--||"@, bar())) by {
        reveal_with_fuel(without, 20);
    }
    assert(without("||-||||-||||>"@, bar()) == without("||-->||"@, bar())) by {
        reveal_with_fuel(without, 15);
    }
    let a = replaced(s, "[||||["@, "[["@);
    lemma_without_replace(s, "[||||["@, "[["@, bar());
    let b = replaced(a, "]||||]"@, "]]"@);
    lemma_without_replace(a, "]||||]"@, "]]"@, bar());
    let c = replaced(b, "{||||{"@, "{{"@);
    lemma_without_replace(b, "{||||{"@, "{{"@, bar());
    let d = replaced(c, "}||||}"@, "}}"@);
    lemma_without_replace(c, "}||||}"@, "}}"@, bar());
    let e = replaced(d, "<||||!||||-||||-||"@, "||<!--||"@);
    lemma_without_replace(d, "<||||!||||-||||-||"@, "||<!--||"@, bar());
    lemma_without_replace(e, "||-||||-||||>"@, "||-->||"@, bar());
}

proof fn lemma_run_front(x: Seq<char>, v: Seq<Seq<char>>)
    ensures
        run_together(seq![x] + v) == x + run_together(v),
    decreases v.len(),
{
    let all = seq![x] + v;
    if v.len() == 0 {
        assert(all.drop_last() =~= Seq::empty());
        assert(run_together(all.drop_last()) =~= Seq::empty());
        assert(run_together(all) =~= x + run_together(v));
    } else {
        assert(all.drop_last() =~= seq![x] + v.drop_last());
        lemma_run_front(x, v.drop_last());
        assert(run_together(all) =~= x + run_together(v));
    }
}

/// The pieces between delimiters, run together, are the text without them.
proof fn lemma_pieces_run(s: Seq<char>, start: int, i: int)
    requires
        0 <= start <= i <= s.len(),
        is_paired(s.skip(i)),
        forall|k: int| start <= k < i ==> s[k] != '|',
    ensures
        run_together(split_from(s, "||"@, start, i)) == without(s.skip(start), bar()),
    decreases s.len() - i,
{
    let d = "||"@;
    reveal_strlit("||");
    let v = split_from(s, d, start, i);
    let head = s.subrange(start, i);
    lemma_without_none(head, bar());
    if i < s.len() {
        let t = s.skip(i);
        assert(t[0] == s[i]);
        if s[i] == '|' {
            assert(t[1] == s[i + 1]);
            assert(s.subrange(i, i + 2) =~= d);
            assert(occurs_at(s, d, i));
            assert(t.skip(2) =~= s.skip(i + 2));
            lemma_pieces_run(s, i + 2, i + 2);
            let rest = split_from(s, d, i + 2, i + 2);
            assert(v == seq![head] + rest);
            lemma_run_front(head, rest);
            assert(s.skip(start) =~= head + (d + s.skip(i + 2)));
            lemma_without_add(head, d + s.skip(i + 2), bar());
            lemma_without_add(d, s.skip(i + 2), bar());
            lemma_without_all(d, bar());
            assert(Seq::<char>::empty() + without(s.skip(i + 2), bar()) =~= without(
                s.skip(i + 2),
                bar(),
            ));
        } else {
            if occurs_at(s, d, i) {
                assert(s.subrange(i, i + 2)[0] == s[i]);
            }
            assert(t.skip(1) =~= s.skip(i + 1));
            lemma_pieces_run(s, start, i + 1);
            assert(v == split_from(s, d, start, i + 1));
        }
    } else {
        assert(v =~= seq![head]);
        assert(s.skip(start) =~= head);
        assert(v.drop_last() =~= Seq::empty());
        assert(run_together(v.drop_last()) =~= Seq::empty());
        assert(run_together(v) =~= head);
    }
}

proof fn lemma_kept_run(pieces: Seq<Seq<char>>)
    requires
        forall|k: int| 0 <= k < pieces.len() ==> #[trigger] pieces[k] != "ææææ"@,
    ensures
        run_together(tokens_kept(pieces)) == run_together(pieces),
    decreases pieces.len(),
{
    if pieces.len() > 0 {
        let rest = pieces.drop_last();
        assert forall|k: int| 0 <= k < rest.len() implies #[trigger] rest[k] != "ææææ"@ by {
            assert(rest[k] == pieces[k]);
        }
        lemma_kept_run(rest);
        assert(pieces[pieces.len() - 1] != "ææææ"@);
        if pieces.last().len() == 0 {
            assert(run_together(pieces) =~= run_together(rest));
        } else {
            assert(tokens_kept(pieces).drop_last() =~= tokens_kept(rest));
        }
    }
}

proof fn lemma_run_has(pieces: Seq<Seq<char>>, k: int, c: char)
    requires
        0 <= k < pieces.len(),
        pieces[k].contains(c),
    ensures
        run_together(pieces).contains(c),
    decreases pieces.len(),
{
    let rest = pieces.drop_last();
    let all = run_together(pieces);
    let head = run_together(rest);
    if k < rest.len() {
        assert(rest[k] == pieces[k]);
        lemma_run_has(rest, k, c);
        let i = choose|i: int| 0 <= i < head.len() && head[i] == c;
        assert(all[i] == c);
    } else {
        let last = pieces.last();
        let i = choose|i: int| 0 <= i < last.len() && last[i] == c;
        assert(all[head.len() + i] == c);
    }
}

proof fn lemma_without_has(s: Seq<char>, gaps: Set<char>, c: char)
    requires
        without(s, gaps).contains(c),
    ensures
        s.contains(c),
    decreases s.len(),
{
    if s.len() > 0 {
        let less = s.drop_last();
        let w = without(s, gaps);
        let i = choose|i: int| 0 <= i < w.len() && w[i] == c;
        if i < without(less, gaps).len() {
            assert(without(less, gaps)[i] == c);
            lemma_without_has(less, gaps, c);
            let k = choose|k: int| 0 <= k < less.len() && less[k] == c;
            assert(s[k] == c);
        } else {
            assert(s[s.len() - 1] == c);
        }
    }
}

/// Cutting a text into tokens loses nothing but spaces and line ends, and changes
/// nothing: run together, the tokens are the text without them. This is said of texts
/// that hold neither a bar nor what stands in for one while it is cut.
pub proof fn tokens_lose_only_gaps(s: Seq<char>)
    requires
        !s.contains('|'),
        !s.contains('æ'),
    ensures
        run_together(tokens_of(s)) == without(s, set![' ', '\n']),
{
    let a = chars_marked(s);
    lemma_paired_marked(s);
    lemma_paired_joined(a);
    let b = symbols_joined(a);
    lemma_paired_wrapped(b);
    lemma_paired_collapsed(wrapped_cjk(b));
    let c = collapsed(wrapped_cjk(b), "||||"@, "||"@);
    lemma_without_marked(s);
    lemma_without_joined(a);
    lemma_without_wrapped(b);
    lemma_without_collapsed(wrapped_cjk(b));
    assert(c.skip(0) =~= c);
    lemma_pieces_run(c, 0, 0);
    let pieces = split_on(c, "||"@);
    assert forall|k: int| 0 <= k < pieces.len() implies #[trigger] pieces[k] != "ææææ"@ by {
        reveal_strlit("ææææ");
        if pieces[k] == "ææææ"@ {
            assert(pieces[k][0] == 'æ');
            assert(pieces[k].contains('æ'));
            lemma_run_has(pieces, k, 'æ');
            lemma_without_has(s, set![' ', '\n'], 'æ');
        }
    }
    lemma_kept_run(pieces);
}

/// The pieces between delimiters, run together, are the text but for what delimiters are
/// made of.
proof fn lemma_split_run(s: Seq<char>, d: Seq<char>, start: int, i: int, gaps: Set<char>)
    requires
        0 <= start <= i,
        start <= s.len(),
        d.len() > 0,
        forall|k: int| 0 <= k < d.len() ==> gaps.contains(#[trigger] d[k]),
    ensures
        without(run_together(split_from(s, d, start, i)), gaps) == without(s.skip(start), gaps),
    decreases s.len() - i,
{
    let v = split_from(s, d, start, i);
    if i >= s.len() {
        let tail = s.subrange(start, s.len() as int);
        assert(s.skip(start) =~= tail);
        assert(v =~= seq![tail]);
        assert(v.drop_last() =~= Seq::empty());
        assert(run_together(v.drop_last()) =~= Seq::empty());
        assert(run_together(v) =~= tail);
    } else if occurs_at(s, d, i) {
        let n = i + d.len();
        let head = s.subrange(start, i);
        let rest = split_from(s, d, n, n);
        lemma_split_run(s, d, n, n, gaps);
        lemma_run_front(head, rest);
        lemma_without_add(head, run_together(rest), gaps);
        assert(s.skip(start) =~= head + (d + s.skip(n)));
        lemma_without_add(head, d + s.skip(n), gaps);
        lemma_without_add(d, s.skip(n), gaps);
        lemma_without_all(d, gaps);
        assert(Seq::<char>::empty() + without(s.skip(n), gaps) =~= without(s.skip(n), gaps));
    } else {
        lemma_split_run(s, d, start, i + 1, gaps);
    }
}

/// Cutting a text into paragraphs loses nothing but line ends, and keeps the order.
pub proof fn paragraphs_lose_only_line_ends(s: Seq<char>)
    ensures
        without(run_together(paragraphs_of(s)), set!['\n', '\r']) == without(
            s,
            set!['\n', '\r'],
        ),
{
    let gaps = set!['\n', '\r'];
    reveal_strlit("\r\n");
    reveal_strlit("\r");
    reveal_strlit("\n");
    reveal_strlit("\n\n");
    reveal_strlit("<table>");
    reveal_strlit("</table>");
    reveal_strlit("<tr>");
    reveal_strlit("</tr>");
    reveal_strlit("{|");
    reveal_strlit("|}");
    reveal_strlit("|-\n");
    reveal_strlit("\n\n<table>");
    reveal_strlit("</table>\n\n");
    reveal_strlit("\n\n<tr>");
    reveal_strlit("</tr>\n\n");
    reveal_strlit("\n\n{|");
    reveal_strlit("|}\n\n");
    reveal_strlit("\n\n|-\n");
    let gap = "\n\n"@;
    lemma_without_all(gap, gaps);
    lemma_without_all("\r\n"@, gaps);
    lemma_without_all("\n"@, gaps);
    lemma_without_all("\r"@, gaps);
    lemma_gap_before("<table>"@, "\n\n<table>"@, gap, gaps);
    lemma_gap_after("</table>"@, "</table>\n\n"@, gap, gaps);
    lemma_gap_before("<tr>"@, "\n\n<tr>"@, gap, gaps);
    lemma_gap_after("</tr>"@, "</tr>\n\n"@, gap, gaps);
    lemma_gap_before("{|"@, "\n\n{|"@, gap, gaps);
    lemma_gap_after("|}"@, "|}\n\n"@, gap, gaps);
    lemma_gap_before("|-\n"@, "\n\n|-\n"@, gap, gaps);
    let a = replaced(s, "\r\n"@, "\n"@);
    lemma_without_replace(s, "\r\n"@, "\n"@, gaps);
    let b = replaced(a, "\r"@, "\n"@);
    lemma_without_replace(a, "\r"@, "\n"@, gaps);
    let c = replaced(b, "<table>"@, "\n\n<table>"@);
    lemma_without_replace(b, "<table>"@, "\n\n<table>"@, gaps);
    let d = replaced(c, "</table>"@, "</table>\n\n"@);
    lemma_without_replace(c, "</table>"@, "</table>\n\n"@, gaps);
    let e = replaced(d, "<tr>"@, "\n\n<tr>"@);
    lemma_without_replace(d, "<tr>"@, "\n\n<tr>"@, gaps);
    let f = replaced(e, "</tr>"@, "</tr>\n\n"@);
    lemma_without_replace(e, "</tr>"@, "</tr>\n\n"@, gaps);
    let g = replaced(f, "{|"@, "\n\n{|"@);
    lemma_without_replace(f, "{|"@, "\n\n{|"@, gaps);
    let h = replaced(g, "|}"@, "|}\n\n"@);
    lemma_without_replace(g, "|}"@, "|}\n\n"@, gaps);
    let m = replaced(h, "|-\n"@, "\n\n|-\n"@);
    lemma_without_replace(h, "|-\n"@, "\n\n|-\n"@, gaps);
    lemma_split_run(m, gap, 0, 0, gaps);
    assert(m.skip(0) =~= m);
}

proof fn lemma_gap_before(p: Seq<char>, r: Seq<char>, gap: Seq<char>, gaps: Set<char>)
    requires
        r =~= gap + p,
        without(gap, gaps) == Seq::<char>::empty(),
    ensures
        without(p, gaps) == without(r, gaps),
{
    lemma_without_add(gap, p, gaps);
    assert(Seq::<char>::empty() + without(p, gaps) =~= without(p, gaps));
}

proof fn lemma_gap_after(p: Seq<char>, r: Seq<char>, gap: Seq<char>, gaps: Set<char>)
    requires
        r =~= p + gap,
        without(gap, gaps) == Seq::<char>::empty(),
    ensures
        without(p, gaps) == without(r, gaps),
{
    lemma_without_add(p, gap, gaps);
    assert(without(p, gaps) + Seq::<char>::empty() =~= without(p, gaps));
}

} // verus!
