use wikiwho::whocolor_template_strip::{
    find_top_level_template_ranges, splice_templates, strip_templates, PLACEHOLDER_CLOSE,
    PLACEHOLDER_OPEN,
};

#[test]
fn finds_top_level_ranges_and_skips_nested() {
    let wt = "before {{outer|{{inner|x}}}} middle {{simple}} end";
    let ranges = find_top_level_template_ranges(wt);
    assert_eq!(ranges.len(), 2);
    assert_eq!(&wt[ranges[0].0..ranges[0].1], "{{outer|{{inner|x}}}}");
    assert_eq!(&wt[ranges[1].0..ranges[1].1], "{{simple}}");
}

#[test]
fn strip_then_splice_roundtrip() {
    let wt = "Hello {{a|1}} world {{b|2}}!";
    let ranges = find_top_level_template_ranges(wt);
    let (stripped, templates) = strip_templates(wt, &ranges);
    assert_eq!(templates, vec!["{{a|1}}".to_string(), "{{b|2}}".to_string()]);
    assert!(stripped.contains('\u{E000}'));
    let rendered: Vec<String> = templates
        .iter()
        .map(|t| format!("<i>{t}</i>"))
        .collect();
    let final_html = splice_templates(&stripped, &rendered);
    assert_eq!(final_html, "Hello <i>{{a|1}}</i> world <i>{{b|2}}</i>!");
}

#[test]
fn malformed_placeholder_passes_through() {
    let weird = format!("x{PLACEHOLDER_OPEN}T999{PLACEHOLDER_CLOSE}y");
    let rendered = vec!["RENDERED".to_string()];
    let out = splice_templates(&weird, &rendered);
    assert!(out.contains("T999"));
}
