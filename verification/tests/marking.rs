use wikiwho::whocolor_html::{
    annotate_events, compute_matches, flatten_into_events, inject_spans, token_class_name,
    HtmlEvent, HtmlNode, InjectionToken,
};
use wikiwho::mwclient::MwError;
use wikiwho::whocolor_template_strip::{
    assemble_html, find_top_level_template_ranges, splice_templates, strip_and_inject, strip_templates,
};
use wikiwho::whocolor_wikitext::{inject_spans_into_wikitext, WikitextToken};

fn token(s: &str, editor: &str) -> WikitextToken {
    WikitextToken {
        str: s.into(),
        editor: editor.into(),
        class_name: editor.into(),
    }
}

fn html_token(s: &str, editor: &str) -> InjectionToken {
    InjectionToken {
        str: s.into(),
        editor: editor.into(),
        class_name: token_class_name(editor),
    }
}

fn without_spans(s: &str) -> String {
    let mut out = String::new();
    let mut rest = s;
    while let Some(i) = rest.find("<span class=\"editor-token") {
        out.push_str(&rest[..i]);
        rest = &rest[i..];
        rest = &rest[rest.find('>').unwrap() + 1..];
    }
    out.push_str(rest);
    out.replace("</span>", "")
}

#[test]
fn marking_leaves_the_wikitext_as_it_was() {
    let texts = [
        "plain words here",
        "a [[link|shown]] and {{template|x}} end",
        "== head ==\n* one\n* two\n----\n''it'' &nbsp; x",
        "<ref name=\"a\">r</ref> after <nowiki>[[x]]</nowiki> done",
        "__TOC__ http://example.org [http://e.org t]",
        "unclosed {{ template",
    ];
    let tokens: Vec<WikitextToken> = [
        "plain", "words", "here", "a", "link", "shown", "and", "template", "x", "end", "head",
        "one", "two", "it", "r", "after", "done", "t", "unclosed",
    ]
    .iter()
    .map(|t| token(t, "1"))
    .collect();
    for text in texts {
        let out = inject_spans_into_wikitext(text, &tokens);
        assert_eq!(without_spans(&out.wikitext), text);
        assert_eq!(
            out.wikitext.matches("<span class=\"editor-token").count(),
            out.wikitext.matches("</span>").count()
        );
    }
}

#[test]
fn editors_come_by_their_number_of_tokens() {
    let tokens = [
        token("a", "1"),
        token("b", "2"),
        token("c", "2"),
        token("d", "3"),
    ];
    let out = inject_spans_into_wikitext("a b c d", &tokens);
    let order: Vec<(&str, usize)> = out
        .present_editors
        .iter()
        .map(|e| (e.editor.as_str(), e.token_count))
        .collect();
    assert_eq!(order, vec![("2", 2), ("1", 1), ("3", 1)]);
}

#[test]
fn templates_come_back_where_they_were() {
    for text in [
        "no templates",
        "{{a}}",
        "x {{a|{{b}}}} y {{c}} z",
        "é {{ü}} {{unclosed",
        "}} stray {{a}}",
    ] {
        let ranges = find_top_level_template_ranges(text);
        for (from, to) in &ranges {
            assert!(text[*from..*to].starts_with("{{"));
            assert!(text[*from..*to].ends_with("}}"));
        }
        let (stripped, templates) = strip_templates(text, &ranges);
        assert_eq!(splice_templates(&stripped, &templates), text);
    }
}

#[test]
fn templates_are_left_out_of_the_marking() {
    let (out, templates) = strip_and_inject("word {{box|word}}", &[token("word", "7")]);
    assert_eq!(templates, vec!["{{box|word}}".to_string()]);
    assert!(out.wikitext.contains("id=\"token-0\">word"), "{}", out.wikitext);
    assert!(!out.wikitext.contains("box"));
}

#[test]
fn pages_are_put_together_from_their_parts() {
    let main = || Ok("a \u{E000}T1\u{E001} b \u{E000}T0\u{E001}".to_string());
    let rendered = vec![Ok("<i>x</i>".to_string()), Ok("<b>y</b>".to_string())];
    assert_eq!(assemble_html(main(), rendered).unwrap(), "a <b>y</b> b <i>x</i>");
}

#[test]
fn the_first_failed_part_is_told() {
    let main = || Ok("a".to_string());
    let parts = vec![
        Ok("x".to_string()),
        Err(MwError::Shape("first".to_string())),
        Err(MwError::Shape("second".to_string())),
    ];
    match assemble_html(main(), parts) {
        Err(MwError::Shape(s)) => assert_eq!(s, "first"),
        r => panic!("{r:?}"),
    }
    let parts = vec![Err(MwError::Shape("first".to_string()))];
    match assemble_html(Err(MwError::Retry("rest".to_string())), parts) {
        Err(MwError::Retry(s)) => assert_eq!(s, "rest"),
        r => panic!("{r:?}"),
    }
}

#[test]
fn tokens_are_found_in_order_in_the_page() {
    let text: Vec<char> = "one two one".chars().collect();
    let tokens = [html_token("two", "1"), html_token("one", "2")];
    let (matches, editors) = compute_matches(&text, &tokens);
    let places: Vec<(usize, usize)> = matches.iter().map(|m| (m.start, m.end)).collect();
    assert_eq!(places, vec![(4, 7), (8, 11)]);
    assert_eq!(editors.len(), 2);
}

#[test]
fn marking_leaves_the_page_as_it_was() {
    let page = "<html><head></head><body><p>One &amp; <b>Two</b> &lt;three&gt;</p></body></html>";
    let tokens = [html_token("one", "1"), html_token("two", "1"), html_token("three", "2")];
    let out = inject_spans(page, &tokens);
    assert_eq!(without_spans(&out.html), page);
    assert_eq!(out.html.matches("<span class=").count(), 3);
}

#[test]
fn a_token_over_two_text_nodes_keeps_the_text() {
    let events = vec![
        HtmlEvent::OpenTag("p".into(), vec![]),
        HtmlEvent::Text("wo".into(), false),
        HtmlEvent::OpenTag("b".into(), vec![]),
        HtmlEvent::Text("rd".into(), false),
        HtmlEvent::CloseTag("b".into()),
        HtmlEvent::CloseTag("p".into()),
    ];
    let out = annotate_events(&events, &[html_token("word", "1")]);
    assert_eq!(without_spans(&out.html), "<p>wo<b>rd</b></p>");
}

#[test]
fn pages_are_flattened_in_order() {
    let node = HtmlNode::Document(vec![
        HtmlNode::Doctype("html".into()),
        HtmlNode::Comment("c".into()),
        HtmlNode::Element(
            "p".into(),
            vec![],
            vec![HtmlNode::Text("t".into()), HtmlNode::Instruction],
        ),
    ]);
    let mut events = Vec::new();
    flatten_into_events(&node, &mut events, false);
    assert_eq!(events.len(), 5);
    assert!(matches!(&events[0], HtmlEvent::Doctype(d) if d == "html"));
    assert!(matches!(&events[1], HtmlEvent::Comment(c) if c == "c"));
    assert!(matches!(&events[2], HtmlEvent::OpenTag(t, _) if t == "p"));
    assert!(matches!(&events[3], HtmlEvent::Text(t, false) if t == "t"));
    assert!(matches!(&events[4], HtmlEvent::CloseTag(t) if t == "p"));
}

#[test]
fn editors_found_are_told_once_each() {
    let words = [("one", "7"), ("two", "8"), ("one", "7"), ("gone", "9"), ("two", "7")];
    let tokens: Vec<_> = words.iter().map(|(s, e)| token(s, e)).collect();
    let out = inject_spans_into_wikitext("one two one two", &tokens);
    let told: Vec<(&str, usize)> =
        out.present_editors.iter().map(|e| (e.editor.as_str(), e.token_count)).collect();
    assert_eq!(told, vec![("7", 3), ("8", 1)]);
    let tokens: Vec<_> = words.iter().map(|(s, e)| html_token(s, e)).collect();
    let out = inject_spans("<p>one two one two</p>", &tokens);
    let told: Vec<(&str, usize)> =
        out.present_editors.iter().map(|e| (e.editor.as_str(), e.token_count)).collect();
    assert_eq!(told, vec![("7", 3), ("8", 1)]);
}
