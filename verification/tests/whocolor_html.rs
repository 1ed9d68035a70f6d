use wikiwho::whocolor_html::{inject_spans, token_class_name, InjectionToken};

fn t(s: &str, editor: &str) -> InjectionToken {
    InjectionToken {
        str: s.to_string(),
        editor: editor.to_string(),
        class_name: token_class_name(editor),
    }
}

#[test]
fn class_name_for_registered_is_user_id() {
    assert_eq!(token_class_name("12345"), "12345");
}

#[test]
fn class_name_for_anon_is_md5_hex() {
    let class = token_class_name("0|Anon");
    assert_eq!(class.len(), 32);
    assert!(class.chars().all(|c| c.is_ascii_hexdigit()));
    assert_eq!(class, token_class_name("0|Anon"));
    assert_ne!(class, token_class_name("0|Other"));
}

#[test]
fn inject_wraps_simple_text_tokens() {
    let html = "<p>Hello world</p>";
    let tokens = vec![t("hello", "1"), t("world", "2")];
    let r = inject_spans(html, &tokens);
    assert!(r.html.contains(
        "<span class=\"editor-token token-editor-1\" id=\"token-0\">Hello</span>"
    ));
    assert!(r.html.contains(
        "<span class=\"editor-token token-editor-2\" id=\"token-1\">world</span>"
    ));
    assert_eq!(r.present_editors.len(), 2);
    assert!(r.present_editors.iter().all(|e| e.token_count == 1));
}

#[test]
fn inject_is_case_insensitive() {
    let html = "<p>HELLO World</p>";
    let r = inject_spans(html, &[t("hello", "1"), t("world", "2")]);
    assert!(r.html.contains(">HELLO</span>"));
    assert!(r.html.contains(">World</span>"));
}

#[test]
fn inject_skips_tokens_not_in_html() {
    let html = "<p>Hello world</p>";
    let tokens = vec![
        t("[[", "1"),
        t("hello", "1"),
        t("]]", "1"),
        t("world", "1"),
    ];
    let r = inject_spans(html, &tokens);
    assert!(
        r.html.contains("id=\"token-0\">Hello</span>"),
        "expected Hello wrapped with id 0, got: {}",
        r.html
    );
    assert!(r.html.contains("id=\"token-1\">world</span>"));
    assert_eq!(r.present_editors.len(), 1);
    assert_eq!(r.present_editors[0].token_count, 2);
}

#[test]
fn inject_advances_past_first_text_node_into_second() {
    let html = "<p>Hello <b>world</b></p>";
    let r = inject_spans(html, &[t("hello", "1"), t("world", "2")]);
    assert!(r.html.contains("<b><span"), "got: {}", r.html);
    assert!(r.html.contains("token-editor-2\" id=\"token-1\">world</span>"));
}

#[test]
fn inject_inside_script_is_skipped() {
    let html = "<script>var x = 'hello';</script><p>Hello world</p>";
    let r = inject_spans(html, &[t("hello", "1"), t("world", "2")]);
    assert!(
        r.html.contains("<script>var x = 'hello';</script>"),
        "script content preserved verbatim, got: {}",
        r.html
    );
    assert!(r.html.contains("id=\"token-0\">Hello</span>"));
    assert!(r.html.contains("id=\"token-1\">world</span>"));
}

#[test]
fn inject_preserves_existing_attributes() {
    let html = r#"<p class="lead">Hello</p>"#;
    let r = inject_spans(html, &[t("hello", "1")]);
    assert!(r.html.contains(r#"<p class="lead">"#));
    assert!(r.html.contains(">Hello</span>"));
}

#[test]
fn inject_handles_void_elements() {
    let html = r#"<p>Hello<br>world</p>"#;
    let r = inject_spans(html, &[t("hello", "1"), t("world", "2")]);
    assert!(r.html.contains("<br>"));
    assert!(!r.html.contains("</br>"));
    assert!(r.html.contains("Hello</span><br><span"));
}

#[test]
fn inject_unicode_token_matches() {
    let html = "<p>中国是一个国家</p>";
    let r = inject_spans(html, &[t("中国", "1"), t("国家", "1")]);
    assert!(r.html.contains(">中国</span>"));
    assert!(r.html.contains(">国家</span>"));
    assert_eq!(r.present_editors.len(), 1);
    assert_eq!(r.present_editors[0].token_count, 2);
}

#[test]
fn inject_present_editors_sorted_by_count_desc() {
    let html = "<p>a b c d a a b</p>";
    let tokens = vec![
        t("a", "1"), t("b", "2"), t("c", "3"), t("d", "4"),
        t("a", "1"), t("a", "1"), t("b", "2"),
    ];
    let r = inject_spans(html, &tokens);
    assert!(r.present_editors.len() >= 3);
    assert_eq!(r.present_editors[0].editor, "1");
    assert_eq!(r.present_editors[0].token_count, 3);
    assert_eq!(r.present_editors[1].editor, "2");
    assert_eq!(r.present_editors[1].token_count, 2);
}

#[test]
fn inject_escapes_html_in_tokens() {
    let html = "<p>&lt;b&gt;</p>";
    let r = inject_spans(html, &[t("<b>", "1")]);
    assert!(r.html.contains("&lt;b&gt;"));
    assert!(r.html.contains("<span"));
}
