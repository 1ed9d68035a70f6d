use wikiwho::whocolor_wikitext::{
    inject_spans_into_wikitext, WikitextToken, REGEX_HELPER_PATTERN,
};

fn t(s: &str, editor: &str, class_name: &str) -> WikitextToken {
    WikitextToken {
        str: s.into(),
        editor: editor.into(),
        class_name: class_name.into(),
    }
}

#[test]
fn empty_wikitext_yields_empty_output() {
    let out = inject_spans_into_wikitext("", &[]);
    assert_eq!(out.wikitext, "");
    assert!(out.present_editors.is_empty());
}

#[test]
fn plain_text_gets_spans_per_token() {
    let toks = vec![
        t("hello", "42", "42"),
        t("world", "42", "42"),
    ];
    let out = inject_spans_into_wikitext("hello world", &toks);
    assert!(
        out.wikitext.contains("<span class=\"editor-token token-editor-42\" id=\"token-0\">hello</span>"),
        "missing span for first token: {}",
        out.wikitext
    );
    assert!(
        out.wikitext.contains("token-editor-42\" id=\"token-1\""),
        "missing span for second token: {}",
        out.wikitext
    );
}

#[test]
fn template_tokens_are_not_span_wrapped() {
    let toks = vec![
        t("hello", "42", "42"),
        t("cite", "99", "99"),
        t("args", "99", "99"),
        t("world", "42", "42"),
    ];
    let out = inject_spans_into_wikitext("hello {{cite|args}} world", &toks);
    let html = &out.wikitext;
    assert!(html.contains("token-editor-42\" id=\"token-0\">hello</span>"), "{html}");
    let template_start = html.find("{{").expect("template should remain");
    let template_end = html.find("}}").expect("template close should remain");
    let template_body = &html[template_start..template_end + 2];
    assert!(
        !template_body.contains("token-editor"),
        "template body should not have spans, got: {template_body}"
    );
    assert!(
        html.contains("> world</span>"),
        "world should be span-wrapped (with leading space): {html}"
    );
}

#[test]
fn internal_link_target_excluded_from_spans() {
    let toks = vec![
        t("see", "42", "42"),
        t("foo", "99", "99"),
        t("end", "42", "42"),
    ];
    let out = inject_spans_into_wikitext("see [[foo]] end", &toks);
    let html = &out.wikitext;
    assert!(html.contains(">see</span>"), "see should be wrapped: {html}");
    assert!(html.contains("> end</span>"), "end should be wrapped: {html}");
    let link_start = html.find("[[").unwrap();
    let link_end = html.find("]]").unwrap();
    let link_body = &html[link_start..link_end + 2];
    assert!(
        !link_body.contains("token-editor-99"),
        "link body should not contain inner span, got: {link_body}"
    );
}

#[test]
fn newlines_round_trip_through_helper_substitution() {
    let toks = vec![t("hello", "1", "1"), t("world", "1", "1")];
    let out = inject_spans_into_wikitext("hello\nworld", &toks);
    assert!(
        out.wikitext.contains('\n'),
        "newline should round-trip back: {}",
        out.wikitext
    );
    assert!(!out.wikitext.contains(REGEX_HELPER_PATTERN));
}

#[test]
fn present_editors_sorted_by_count_desc_then_first_seen() {
    let toks = vec![
        t("alpha", "1", "1"),
        t("beta", "2", "2"),
        t("gamma", "1", "1"),
        t("delta", "3", "3"),
        t("epsilon", "2", "2"),
    ];
    let out = inject_spans_into_wikitext("alpha beta gamma delta epsilon", &toks);
    assert_eq!(out.present_editors.len(), 3);
    assert_eq!(out.present_editors[0].editor, "1");
    assert_eq!(out.present_editors[0].token_count, 2);
    assert_eq!(out.present_editors[1].editor, "2");
    assert_eq!(out.present_editors[1].token_count, 2);
    assert_eq!(out.present_editors[2].editor, "3");
    assert_eq!(out.present_editors[2].token_count, 1);
}

#[test]
fn case_insensitive_match() {
    let toks = vec![t("hello", "42", "42")];
    let out = inject_spans_into_wikitext("Hello", &toks);
    assert!(
        out.wikitext.contains(">Hello</span>"),
        "should match Hello vs hello: {}",
        out.wikitext
    );
}

#[test]
fn ref_tag_body_excluded_from_spans() {
    let toks = vec![
        t("body", "42", "42"),
        t("ref", "99", "99"),
        t("text", "99", "99"),
    ];
    let out = inject_spans_into_wikitext("body<ref>text</ref>", &toks);
    assert!(out.wikitext.contains(">body</span>"));
}

#[test]
fn tokens_appearing_only_after_other_match_are_skipped() {
    let toks = vec![
        t("foo", "1", "1"),
        t("baz", "1", "1"),
        t("bar", "1", "1"),
    ];
    let out = inject_spans_into_wikitext("foo bar", &toks);
    assert!(out.wikitext.contains(">foo</span>"));
    assert!(out.wikitext.contains("> bar</span>"));
}

#[test]
fn nested_template_inside_template_does_not_emit_spans() {
    let wikitext = "{{Infobox |a = {{nest |[[L1]] |[[L2]]}}|b = end}}";
    let toks = vec![
        t("infobox", "1", "1"),
        t("a", "1", "1"),
        t("nest", "1", "1"),
        t("l1", "1", "1"),
        t("l2", "1", "1"),
        t("b", "1", "1"),
        t("end", "1", "1"),
    ];
    let out = inject_spans_into_wikitext(wikitext, &toks);
    let infobox_close = out.wikitext.rfind("}}").unwrap() + 2;
    let infobox_body = &out.wikitext[0..infobox_close];
    assert!(
        !infobox_body.contains("<span class=\"editor-token"),
        "no spans should appear inside {{{{Infobox ...}}}}, got: {infobox_body}"
    );
}
