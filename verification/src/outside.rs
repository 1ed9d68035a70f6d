//! Calls into outside crates, each behind one function whose contract says what
//! is relied on.
use crate::tokenize::{has_cjk, wrapped_cjk, CJK_PATTERN, CJK_REPLACEMENT, DOT_PATTERN, URL_PATTERN};
use crate::whocolor_wikitext::is_markup_pattern;
use crate::json::{Json, JsonField, JsonValue};
use crate::matcher::count_of;
use crate::whocolor_html::{HtmlAttribute, HtmlNode, HtmlTree};
use html5ever::parse_document;
use html5ever::tendril::TendrilSink;
use markup5ever_rcdom::NodeData::{
    Comment, Doctype, Document, Element, ProcessingInstruction, Text,
};
use markup5ever_rcdom::{Node, RcDom};
use md5::{Digest, Md5};
use regex::Regex;
use serde_json::Value;
use std::rc::Rc;
use vstd::prelude::*;
use vstd::utf8::encode_utf8;

verus! {

/// The MD5 digest of a text's UTF-8 bytes in lowercase hexadecimal.
pub uninterp spec fn md5_hex(text: Seq<char>) -> Seq<char>;

/// Whether `c` is a lowercase hexadecimal digit.
pub open spec fn is_hex_digit(c: char) -> bool {
    ('0' <= c && c <= '9') || ('a' <= c && c <= 'f')
}

/// Hashes with `md5::Md5`. The digest depends on the text alone and is written
/// with 32 lowercase hexadecimal digits.
#[verifier::external_body]
pub(crate) fn md5_digest(text: &str) -> (r: String)
    ensures
        r@ == md5_hex(text@),
        r@.len() == 32,
        forall|i: int| 0 <= i < r@.len() ==> is_hex_digit(#[trigger] r@[i]),
{
    let mut hasher = Md5::new();
    hasher.update(text.as_bytes());
    format!("{:x}", hasher.finalize())
}

/// Whether the pattern is one of those that this library searches with. Each is
/// a valid regular expression.
pub open spec fn is_known_pattern(p: Seq<char>) -> bool {
    p == DOT_PATTERN@ || p == URL_PATTERN@ || p == CJK_PATTERN@ || is_markup_pattern(p)
}

/// The text with every match of the pattern, left to right, replaced as
/// `regex::Regex::replace_all` does.
pub uninterp spec fn regex_replaced(
    pattern: Seq<char>,
    text: Seq<char>,
    replacement: Seq<char>,
) -> Seq<char>;

/// Replaces with `regex::Regex::replace_all`. The result depends on the three
/// texts alone. For the character class of CJK characters, put between two
/// delimiters, it is said in full.
#[verifier::external_body]
pub(crate) fn regex_replace_all(pattern: &str, text: &str, replacement: &str) -> (r: String)
    requires
        is_known_pattern(pattern@),
    ensures
        r@ == regex_replaced(pattern@, text@, replacement@),
        pattern@ == CJK_PATTERN@ && replacement@ == CJK_REPLACEMENT@ ==> r@ == wrapped_cjk(text@),
{
    Regex::new(pattern).unwrap().replace_all(text, replacement).into_owned()
}

/// Searches with `regex::Regex::is_match` for a character of the class of CJK
/// characters.
#[verifier::external_body]
pub(crate) fn regex_is_match(pattern: &str, text: &str) -> (r: bool)
    requires
        pattern@ == CJK_PATTERN@,
    ensures
        r == has_cjk(text@),
{
    Regex::new(pattern).unwrap().is_match(text)
}

/// The first match of the pattern, as `regex::Regex::find` finds it: the text
/// before it, and the text that matches.
pub uninterp spec fn regex_found(pattern: Seq<char>, text: Seq<char>) -> Option<
    (Seq<char>, Seq<char>),
>;

/// The texts of a match.
pub open spec fn match_texts(m: Option<(String, String)>) -> Option<(Seq<char>, Seq<char>)> {
    match m {
        Some((before, at)) => Some((before@, at@)),
        None => None,
    }
}

/// The text begins with what is before the match, and goes on with the match.
pub open spec fn match_in(m: Option<(String, String)>, text: Seq<char>) -> bool {
    match m {
        Some((before, at)) => (before@ + at@).is_prefix_of(text),
        None => true,
    }
}

/// Searches with `regex::Regex::find`. The match depends on the pattern and the
/// text alone, and is a part of the text.
#[verifier::external_body]
pub(crate) fn regex_find(pattern: &str, text: &str) -> (r: Option<(String, String)>)
    requires
        is_known_pattern(pattern@),
    ensures
        match_texts(r) == regex_found(pattern@, text@),
        match_in(r, text@),
{
    let found = Regex::new(pattern).unwrap().find(text)?;
    Some((text[..found.start()].to_string(), found.as_str().to_string()))
}

/// The lowercase form of a text, as `str::to_lowercase` gives it.
pub uninterp spec fn lowercase(text: Seq<char>) -> Seq<char>;

/// Lowercases with `str::to_lowercase`. The result depends on the text alone.
#[verifier::external_body]
pub(crate) fn to_lowercase(text: &str) -> (r: String)
    ensures
        r@ == lowercase(text@),
{
    text.to_lowercase()
}

/// The lowercase form of a character, as `char::to_lowercase` gives it.
pub uninterp spec fn lowered_char(c: char) -> Seq<char>;

/// Lowercases with `char::to_lowercase`. The result depends on the character alone.
#[verifier::external_body]
pub(crate) fn lower_char(c: char) -> (r: String)
    ensures
        r@ == lowered_char(c),
{
    c.to_lowercase().collect()
}

/// A node of a page parsed by `html5ever` into the tree of `markup5ever_rcdom`.
#[verifier::external_type_specification]
#[verifier::external_body]
pub struct ExNode(Node);

/// What a node holds.
pub uninterp spec fn node_tree(node: Node) -> HtmlTree;

/// The page that a text is parsed into.
pub uninterp spec fn html_tree(text: Seq<char>) -> HtmlTree;

/// How many bytes the texts, names and values of a parsed page take at most: those of
/// its text, two more for each NUL, which becomes a replacement character, and one
/// more for each ampersand, as some references are shorter than what they stand for.
pub open spec fn parsed_size(html: Seq<char>) -> nat {
    encode_utf8(html).len() + 2 * count_of(html, '\0') + count_of(html, '&')
}

/// Parses with `html5ever::parse_document`. The page depends on the text alone. The
/// buffers that the parser collects text in cannot grow beyond 2 GiB.
#[verifier::external_body]
pub(crate) fn parse_html(html: &str) -> (r: Rc<Node>)
    requires
        parsed_size(html@) <= 0x8000_0000,
    ensures
        node_tree(*r) == html_tree(html@),
{
    parse_document(RcDom::default(), Default::default()).one(html).document.clone()
}

/// Copies a `markup5ever_rcdom::Node` and what is in it, one node for one node.
#[verifier::external_body]
pub(crate) fn html_node(node: &Node) -> (r: HtmlNode)
    ensures
        r@ == node_tree(*node),
{
    let children = node.children.borrow().iter().map(|c| html_node(c)).collect();
    match &node.data {
        Document => HtmlNode::Document(children),
        Doctype { name, .. } => HtmlNode::Doctype(name.to_string()),
        Text { contents } => HtmlNode::Text(contents.borrow().to_string()),
        Comment { contents } => HtmlNode::Comment(contents.to_string()),
        ProcessingInstruction { .. } => HtmlNode::Instruction,
        Element { name, attrs, .. } => HtmlNode::Element(
            name.local.to_string(),
            attrs.borrow().iter().map(|a| HtmlAttribute {
                prefix: a.name.prefix.as_deref().map(String::from),
                local: a.name.local.to_string(),
                value: a.value.to_string() }).collect(),
            children),
    }
}

/// A JSON value of `serde_json`.
#[verifier::external_type_specification]
#[verifier::external_body]
pub struct ExValue(Value);

/// What a JSON value holds.
pub uninterp spec fn json_tree(v: Value) -> Json;

/// The JSON value that bytes are read as; none where they are no JSON.
pub uninterp spec fn json_parsed(bytes: Seq<u8>) -> Option<Json>;

/// Reads with `serde_json::from_slice`. The value depends on the bytes alone.
#[verifier::external_body]
pub(crate) fn parse_json(bytes: &[u8]) -> (r: Option<Value>)
    ensures
        match r {
            Some(v) => json_parsed(bytes@) == Some(json_tree(v)),
            None => json_parsed(bytes@) is None,
        },
{
    serde_json::from_slice(bytes).ok()
}

/// Copies a `serde_json::Value` and what is in it, one value for one value.
#[verifier::external_body]
pub(crate) fn json_value(v: &Value) -> (r: JsonValue)
    ensures
        r@ == json_tree(*v),
{
    match v {
        Value::Null => JsonValue::Null,
        Value::Bool(b) => JsonValue::Bool(*b),
        Value::Number(n) => match (n.as_u64(), n.as_i64()) {
            (Some(u), _) => JsonValue::Unsigned(u.into()),
            (None, Some(i)) => JsonValue::Negative(i),
            (None, None) => JsonValue::Real(n.to_string()),
        },
        Value::String(s) => JsonValue::Text(s.clone()),
        Value::Array(items) => JsonValue::Array(items.iter().map(json_value).collect()),
        Value::Object(fields) => JsonValue::Object(fields.iter().map(|(k, x)| JsonField {
            name: k.clone(), value: json_value(x) }).collect()),
    }
}

/// Whether a byte stands for itself in a part of an address.
pub open spec fn is_unreserved(b: u8) -> bool {
    ||| 0x30 <= b <= 0x39
    ||| 0x41 <= b <= 0x5a
    ||| 0x61 <= b <= 0x7a
    ||| b == 0x2d
    ||| b == 0x2e
    ||| b == 0x5f
    ||| b == 0x7e
}

/// The capital hexadecimal digit of a number below 16.
pub open spec fn hex_digit(n: int) -> char {
    if n < 10 {
        (0x30 + n) as char
    } else {
        (0x41 + n - 10) as char
    }
}

/// Bytes as they stand in a part of an address: each that does not stand for itself
/// as a percent sign and two hexadecimal digits.
pub open spec fn percent_encoded(b: Seq<u8>) -> Seq<char>
    decreases b.len(),
{
    if b.len() == 0 {
        Seq::empty()
    } else {
        let last = b.last();
        percent_encoded(b.drop_last()) + (if is_unreserved(last) {
            seq![last as char]
        } else {
            seq!['%', hex_digit(last as int / 16), hex_digit(last as int % 16)]
        })
    }
}

/// A text as it stands in a part of an address.
pub open spec fn url_encoded(text: Seq<char>) -> Seq<char> {
    percent_encoded(encode_utf8(text))
}

/// Encodes with `urlencoding::encode`, which percent-encodes every byte of the
/// UTF-8 form except ASCII letters and digits, `-`, `_`, `.` and `~`.
#[verifier::external_body]
pub(crate) fn url_encode(text: &str) -> (r: String)
    ensures
        r@ == url_encoded(text@),
{
    urlencoding::encode(text).into_owned()
}

/// A text in quotation marks, as `Debug` writes it.
pub uninterp spec fn quoted(text: Seq<char>) -> Seq<char>;

/// Quotes with the `Debug` form of `str`. The result depends on the text alone.
#[verifier::external_body]
pub(crate) fn quote(text: &str) -> (r: String)
    ensures
        r@ == quoted(text@),
{
    format!("{:?}", text)
}

} // verus!
