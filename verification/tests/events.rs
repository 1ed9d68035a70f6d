use wikiwho::ingest::events::{
    lang_to_wiki, parse_frame, RawChange, RawRevision, SseFrameBuffer,
};
use wikiwho::text::StringHashSet;

fn make_data(
    kind: &str,
    ns: i64,
    wiki: &str,
    new: u64,
    old: u64,
    page_id: u64,
    title: &str,
) -> RawChange {
    RawChange {
        kind: kind.to_string(),
        namespace: Some(ns),
        wiki: Some(wiki.to_string()),
        server_name: Some(format!(
            "{}.wikipedia.org",
            wiki.trim_end_matches("wiki")
        )),
        title: Some(title.to_string()),
        revision: Some(RawRevision {
            new: Some(new),
            old: Some(old),
        }),
        page_id: Some(page_id),
        id: None,
    }
}

#[test]
fn parse_frame_filters_non_article_ns() {
    let data = make_data("edit", 1, "enwiki", 100, 99, 5, "User talk:Foo");
    assert!(parse_frame(data, None, None).is_none());
}

#[test]
fn parse_frame_filters_non_edit_type() {
    let data = make_data("log", 0, "enwiki", 100, 99, 5, "Foo");
    assert!(parse_frame(data, None, None).is_none());
}

#[test]
fn parse_frame_passes_edit_ns0() {
    let data = make_data("edit", 0, "enwiki", 1000, 999, 5, "Foo");
    let edit = parse_frame(data, Some("[{}]"), None).unwrap();
    assert_eq!(edit.language, "en");
    assert_eq!(edit.wiki, "enwiki");
    assert_eq!(edit.rev_id, 1000);
    assert_eq!(edit.parent_rev_id, 999);
    assert_eq!(edit.page_id, 5);
    assert_eq!(edit.title, "Foo");
    assert_eq!(edit.sse_id.as_deref(), Some("[{}]"));
}

#[test]
fn parse_frame_wiki_filter_blocks_unconfigured() {
    let data = make_data("edit", 0, "frwiki", 1000, 999, 5, "Foo");
    let mut filter = StringHashSet::new();
    filter.insert("enwiki".to_string());
    assert!(parse_frame(data, None, Some(&filter)).is_none());
}

#[test]
fn parse_frame_wiki_filter_allows_configured() {
    let data = make_data("edit", 0, "enwiki", 1000, 999, 5, "Foo");
    let mut filter = StringHashSet::new();
    filter.insert("enwiki".to_string());
    assert!(parse_frame(data, None, Some(&filter)).is_some());
}

#[test]
fn parse_frame_first_revision_has_zero_parent() {
    let data = RawChange {
        kind: "new".to_string(),
        namespace: Some(0),
        wiki: Some("enwiki".to_string()),
        server_name: Some("en.wikipedia.org".to_string()),
        title: Some("NewPage".to_string()),
        revision: Some(RawRevision {
            new: Some(1000),
            old: None,
        }),
        page_id: Some(99),
        id: None,
    };
    let edit = parse_frame(data, None, None).unwrap();
    assert_eq!(edit.parent_rev_id, 0);
    assert_eq!(edit.rev_id, 1000);
}

#[test]
fn parse_frame_missing_page_id_drops() {
    let data = RawChange {
        kind: "edit".to_string(),
        namespace: Some(0),
        wiki: Some("enwiki".to_string()),
        server_name: Some("en.wikipedia.org".to_string()),
        title: Some("Foo".to_string()),
        revision: Some(RawRevision {
            new: Some(1000),
            old: Some(999),
        }),
        page_id: None,
        id: None,
    };
    assert!(parse_frame(data, None, None).is_none());
}

#[test]
fn lang_to_wiki_basic() {
    assert_eq!(lang_to_wiki("en"), "enwiki");
    assert_eq!(lang_to_wiki("simple"), "simplewiki");
    assert_eq!(lang_to_wiki("zh"), "zhwiki");
}


#[test]
fn sse_buffer_complete_single_frame() {
    let mut buf = SseFrameBuffer::new();
    let frames = buf.feed_chunk("data: hello\nid: 1\n\n");
    assert_eq!(frames, vec![("hello".to_string(), Some("1".to_string()))]);
}

#[test]
fn sse_buffer_multi_chunk_frame() {
    let mut buf = SseFrameBuffer::new();
    assert!(buf.feed_chunk("data: hel").is_empty());
    assert!(buf.feed_chunk("lo\nid: ").is_empty());
    assert!(buf.feed_chunk("42\n").is_empty());
    let out = buf.feed_chunk("\n");
    assert_eq!(out, vec![("hello".to_string(), Some("42".to_string()))]);
}

#[test]
fn sse_buffer_back_to_back_frames() {
    let mut buf = SseFrameBuffer::new();
    let out = buf.feed_chunk("data: a\n\ndata: b\nid: x\n\n");
    assert_eq!(
        out,
        vec![
            ("a".to_string(), None),
            ("b".to_string(), Some("x".to_string()))
        ]
    );
}

#[test]
fn sse_buffer_multiline_data() {
    let mut buf = SseFrameBuffer::new();
    let out = buf.feed_chunk("data: line1\ndata: line2\nid: 7\n\n");
    assert_eq!(
        out,
        vec![("line1\nline2".to_string(), Some("7".to_string()))]
    );
}

#[test]
fn sse_buffer_ignores_unknown_fields_and_comments() {
    let mut buf = SseFrameBuffer::new();
    let out = buf.feed_chunk(":this is a comment\nevent: edit\ndata: payload\n\n");
    assert_eq!(out, vec![("payload".to_string(), None)]);
}

#[test]
fn sse_buffer_crlf_line_endings() {
    let mut buf = SseFrameBuffer::new();
    let out = buf.feed_chunk("data: hello\r\nid: 1\r\n\r\n");
    assert_eq!(out, vec![("hello".to_string(), Some("1".to_string()))]);
}

#[test]
fn sse_buffer_blank_line_with_no_data_resets_id() {
    let mut buf = SseFrameBuffer::new();
    let out = buf.feed_chunk("id: orphan\n\ndata: real\nid: r\n\n");
    assert_eq!(out, vec![("real".to_string(), Some("r".to_string()))]);
}

#[test]
fn sse_buffer_per_byte_chunks() {
    let mut buf = SseFrameBuffer::new();
    let mut got = Vec::new();
    for b in "data: x\nid: y\n\n".chars() {
        got.extend(buf.feed_chunk(&b.to_string()));
    }
    assert_eq!(got, vec![("x".to_string(), Some("y".to_string()))]);
}
