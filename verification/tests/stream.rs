use wikiwho::ingest::checkpoint::{Checkpoint, CheckpointFile};
use wikiwho::ingest::config::{parse_languages, IngestConfig};
use wikiwho::ingest::events::{
    parse_frame, reconnect_wait, resume_after, PageEdit, RawChange, RawRevision, SseFrameBuffer,
};
use wikiwho::ingest::{Ingest, IngestAction};

fn edit(language: &str, id: Option<&str>) -> PageEdit {
    PageEdit {
        language: language.into(),
        wiki: format!("{language}wiki"),
        page_id: 1,
        rev_id: 2,
        parent_rev_id: 1,
        title: "T".into(),
        sse_id: id.map(String::from),
    }
}

fn ingest(every: usize) -> Ingest {
    let languages = parse_languages(" en, simple,,");
    assert_eq!(languages, vec!["en".to_string(), "simple".to_string()]);
    let mut config = IngestConfig::new("/data".into(), languages);
    assert_eq!(config.checkpoint_every, 25);
    config.checkpoint_every = every;
    let checkpoint = Checkpoint::load_or_init(None, &config.languages);
    Ingest { config, checkpoint }
}

#[test]
fn chunks_may_be_cut_anywhere() {
    let text = "data: héllo\r\nid: 1\r\n\r\n: note\ndata: a\ndata: b\n\nid: x\n\ndata: c\n\n";
    let mut whole = SseFrameBuffer::new();
    let expected = whole.feed_chunk(text);
    assert_eq!(expected.len(), 3);
    for cut in 0..=text.len() {
        if !text.is_char_boundary(cut) {
            continue;
        }
        let mut b = SseFrameBuffer::new();
        let mut got = b.feed_chunk(&text[..cut]);
        got.extend(b.feed_chunk(&text[cut..]));
        assert_eq!(got, expected, "cut at {cut}");
    }
}

#[test]
fn edits_of_other_languages_are_skipped() {
    let i = ingest(1);
    assert!(i.wikis().contains("enwiki") && i.wikis().contains("simplewiki"));
    assert_eq!(i.on_item(false, &None), IngestAction::Stop);
    assert_eq!(i.on_item(true, &Some(Ok(edit("en", None)))), IngestAction::Stop);
    assert_eq!(i.on_item(false, &Some(Err("x".into()))), IngestAction::Skip);
    assert_eq!(i.on_item(false, &Some(Ok(edit("de", None)))), IngestAction::Skip);
    assert_eq!(i.on_item(false, &Some(Ok(edit("en", None)))), IngestAction::Apply);
}

#[test]
fn what_was_applied_is_remembered() {
    let mut i = ingest(2);
    assert_eq!(i.resume(), None);
    assert!(!i.on_applied(&edit("en", None)));
    assert!(!i.on_applied(&edit("en", Some("a"))));
    assert!(i.on_applied(&edit("simple", Some("b"))));
    assert_eq!(i.checkpoint.last_event_id("en").as_deref(), Some("a"));
    assert_eq!(i.checkpoint.last_event_id("simple").as_deref(), Some("b"));
    assert!(i.resume().is_some());
    i.checkpoint.flush();
    assert_eq!(i.checkpoint.dirty_count(), 0);
}

#[test]
fn a_stored_checkpoint_is_taken_up() {
    let stored = CheckpointFile {
        version: 0,
        last_event_id: vec![("en".into(), "z".into())],
    };
    let c = Checkpoint::load_or_init(Some(stored), &vec!["en".into(), "de".into()]);
    assert_eq!(c.data().version, 1);
    assert_eq!(c.last_event_id("en").as_deref(), Some("z"));
    assert_eq!(c.last_event_id("de"), None);
    assert_eq!(c.last_event_id_header().as_deref(), Some("z"));
}

#[test]
fn the_stream_is_resumed_after_the_last_event() {
    let last = Some("l".to_string());
    let id = Some("i".to_string());
    assert_eq!(resume_after(last.clone(), &None, id.clone()), id);
    assert_eq!(resume_after(last.clone(), &None, None), last);
    assert_eq!(
        resume_after(last, &Some(edit("en", Some("e"))), None).as_deref(),
        Some("e")
    );
    assert_eq!((reconnect_wait(true), reconnect_wait(false)), (1, 3));
}

#[test]
fn the_page_may_be_named_by_the_older_field() {
    let change = RawChange {
        kind: "edit".into(),
        namespace: Some(0),
        wiki: Some("enwiki".into()),
        server_name: Some("en.wikipedia.org".into()),
        title: Some("T".into()),
        revision: Some(RawRevision {
            new: Some(5),
            old: None,
        }),
        page_id: None,
        id: Some(9),
    };
    let e = parse_frame(change, None, None).unwrap();
    assert_eq!((e.page_id, e.rev_id, e.parent_rev_id), (9, 5, 0));
}
