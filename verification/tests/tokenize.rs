use wikiwho::matcher::Ratio;
use wikiwho::tokenize::{
    avg_word_freq, hash_md5, split_paragraphs, split_sentences, split_tokens, tokenize_revision,
};

fn value(r: Ratio) -> f64 {
    r.num as f64 / r.den as f64
}

#[test]
fn hash_md5_known_vectors() {
    assert_eq!(hash_md5(""), "d41d8cd98f00b204e9800998ecf8427e");
    assert_eq!(hash_md5("hello"), "5d41402abc4b2a76b9719d911017c592");
    assert_eq!(hash_md5("中国"), "c13dceabcb143acd6c9298265d618a9f");
}

#[test]
fn split_paragraphs_simple() {
    assert_eq!(split_paragraphs("a\n\nb"), vec!["a", "b"]);
    assert_eq!(split_paragraphs("a\n\n\nb"), vec!["a", "\nb"]);
    assert_eq!(split_paragraphs("a\nb"), vec!["a\nb"]);
}

#[test]
fn split_paragraphs_normalizes_line_endings() {
    assert_eq!(split_paragraphs("a\r\n\r\nb"), vec!["a", "b"]);
    assert_eq!(split_paragraphs("a\r\rb"), vec!["a", "b"]);
}

#[test]
fn split_paragraphs_html_table_wrapping() {
    let result = split_paragraphs("before<table>x</table>after");
    assert_eq!(result, vec!["before", "<table>x</table>", "after"]);
}

#[test]
fn split_paragraphs_wikitext_table_wrapping() {
    let result = split_paragraphs("before{|x|}after");
    assert_eq!(result, vec!["before", "{|x|}", "after"]);
}

#[test]
fn split_sentences_dot_rule() {
    assert_eq!(
        split_sentences("foo. bar. baz."),
        vec!["foo.", "bar.", "baz."]
    );
}

#[test]
fn split_sentences_short_words_not_split() {
    assert_eq!(split_sentences("hi. ok"), vec!["hi. ok"]);
}

#[test]
fn split_sentences_punctuation_kinds() {
    assert_eq!(split_sentences("a; b? c! d: e"), vec!["a;", "b?", "c!", "d:", "e"]);
}

#[test]
fn split_sentences_newline_and_tab() {
    assert_eq!(split_sentences("a\nb"), vec!["a\n", "b"]);
    assert_eq!(split_sentences("a\tb"), vec!["a\t", "b"]);
}

#[test]
fn split_sentences_html_comment() {
    assert_eq!(
        split_sentences("foo<!--c-->bar"),
        vec!["foo", "<!--c-->", "bar"]
    );
}

#[test]
fn split_sentences_ref_tag() {
    assert_eq!(
        split_sentences("text<ref>cite</ref>more"),
        vec!["text", "<ref>cite</ref>", "more"]
    );
}

#[test]
fn split_sentences_url() {
    let result = split_sentences("see http://x.com/a more text");
    assert_eq!(result, vec!["see ", "http://x.com/a ", "more text"]);
}

#[test]
fn split_tokens_simple() {
    assert_eq!(split_tokens("hello world"), vec!["hello", "world"]);
    assert_eq!(
        split_tokens("foo, bar!"),
        vec!["foo", ",", "bar", "!"]
    );
}

#[test]
fn split_tokens_brackets_kept_double() {
    assert_eq!(
        split_tokens("[[link]]"),
        vec!["[[", "link", "]]"]
    );
    assert_eq!(
        split_tokens("{{template}}"),
        vec!["{{", "template", "}}"]
    );
}

#[test]
fn split_tokens_html_comment_is_single_token() {
    let result = split_tokens("a<!--c-->b");
    assert_eq!(result, vec!["a", "<!--", "c", "-->", "b"]);
}

#[test]
fn split_tokens_pipe_preserved() {
    assert_eq!(split_tokens("a|b"), vec!["a", "|", "b"]);
    assert_eq!(split_tokens("|"), vec!["|"]);
    assert_eq!(split_tokens("||"), vec!["|", "|"]);
}

#[test]
fn split_tokens_cjk_one_token_per_char() {
    assert_eq!(split_tokens("中国"), vec!["中", "国"]);
    assert_eq!(split_tokens("foo 中国 bar"), vec!["foo", "中", "国", "bar"]);
}

#[test]
fn split_tokens_cjk_punctuation_in_range() {
    assert_eq!(split_tokens("中。国"), vec!["中", "。", "国"]);
}

#[test]
fn split_tokens_ascii_only_skips_cjk_regex() {
    assert_eq!(split_tokens("just ascii here"), vec!["just", "ascii", "here"]);
}

#[test]
fn split_tokens_currency_symbols() {
    assert_eq!(split_tokens("price $5"), vec!["price", "$", "5"]);
    assert_eq!(split_tokens("€100"), vec!["€", "100"]);
}

#[test]
fn split_tokens_empty_string_yields_no_tokens() {
    assert_eq!(split_tokens(""), Vec::<String>::new());
}

#[test]
fn split_tokens_sentence_normalization_round_trip() {
    let a = split_tokens("foo  bar").join(" ");
    let b = split_tokens("foo bar").join(" ");
    assert_eq!(a, b);
    assert_eq!(a, "foo bar");
}

#[test]
fn tokenize_revision_simple() {
    assert_eq!(
        tokenize_revision("hello world"),
        vec!["hello", "world"]
    );
}

#[test]
fn tokenize_revision_skips_empty_paragraphs() {
    let text = "first\n\n\n\nsecond";
    let result = tokenize_revision(text);
    assert_eq!(result, vec!["first", "second"]);
}

#[test]
fn tokenize_revision_multi_sentence_paragraph() {
    let text = "foo bar. baz qux.";
    assert_eq!(
        tokenize_revision(text),
        vec!["foo", "bar", ".", "baz", "qux", "."]
    );
}

#[test]
fn tokenize_revision_wiki_markup() {
    assert_eq!(
        tokenize_revision("see [[link]]."),
        vec!["see", "[[", "link", "]]", "."]
    );
}

#[test]
fn tokenize_revision_table_paragraph_splitting() {
    let text = "before{|x|}after";
    let result = tokenize_revision(text);
    assert_eq!(result, vec!["before", "{", "|", "x", "|", "}", "after"]);
}

#[test]
fn avg_word_freq_basic() {
    let tokens: Vec<String> = vec!["the", "the", "cat"].into_iter().map(String::from).collect();
    assert_eq!(value(avg_word_freq(&tokens)), 1.5);
}

#[test]
fn avg_word_freq_filters_structural_tokens() {
    let tokens: Vec<String> = vec!["the", "|", "<", "cat"].into_iter().map(String::from).collect();
    assert_eq!(value(avg_word_freq(&tokens)), 1.0);
}

#[test]
fn avg_word_freq_empty_returns_zero() {
    let tokens: Vec<String> = vec!["|", "<", ">"].into_iter().map(String::from).collect();
    assert_eq!(value(avg_word_freq(&tokens)), 0.0);
    assert_eq!(value(avg_word_freq(&[])), 0.0);
}

#[test]
fn bars_are_tokens_of_their_own() {
    let tokens = split_tokens("a|b||c [[x|y]] {{t|1}} <!--|--> 中|国");
    let bars = tokens.iter().filter(|t| t.as_str() == "|").count();
    assert_eq!(bars, 7);
    assert!(tokens.iter().all(|t| t == "|" || !t.contains('|')), "{tokens:?}");
}
