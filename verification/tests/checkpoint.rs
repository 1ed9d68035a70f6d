use wikiwho::ingest::checkpoint::{Checkpoint, CheckpointFile};

#[test]
fn empty_load_pre_populates_languages() {
    let cp = Checkpoint::load_or_init(None, &vec!["en".into(), "simple".into()]);
    assert!(cp.last_event_id("en").is_none());
    assert!(cp.last_event_id("simple").is_none());
    assert_eq!(cp.dirty_count(), 0);
}

#[test]
fn advance_and_flush_round_trip() {
    let mut cp = Checkpoint::load_or_init(None, &vec!["en".into()]);
    cp.advance("en", "[{\"topic\":\"eqiad.mediawiki.recentchange\",\"partition\":0,\"offset\":42}]");
    assert_eq!(cp.dirty_count(), 1);
    let written = cp.data();
    let stored = CheckpointFile {
        version: written.version,
        last_event_id: written.last_event_id.clone(),
    };
    cp.flush();
    assert_eq!(cp.dirty_count(), 0);

    let reloaded = Checkpoint::load_or_init(Some(stored), &vec!["en".into()]);
    assert_eq!(
        reloaded.last_event_id("en").as_deref(),
        Some("[{\"topic\":\"eqiad.mediawiki.recentchange\",\"partition\":0,\"offset\":42}]")
    );
}

#[test]
fn advance_to_same_value_is_no_op_for_dirty_counter() {
    let mut cp = Checkpoint::load_or_init(None, &vec!["en".into()]);
    cp.advance("en", "id-1");
    cp.advance("en", "id-1");
    cp.advance("en", "id-1");
    assert_eq!(cp.dirty_count(), 1);
    cp.advance("en", "id-2");
    assert_eq!(cp.dirty_count(), 2);
}

#[test]
fn last_event_id_header_prefers_non_empty() {
    let mut cp = Checkpoint::load_or_init(None, &vec!["en".into(), "simple".into()]);
    assert!(cp.last_event_id_header().is_none());
    cp.advance("simple", "simple-id-1");
    assert_eq!(cp.last_event_id_header().as_deref(), Some("simple-id-1"));
}

#[test]
fn corrupt_file_resets_cleanly() {
    let cp = Checkpoint::load_or_init(None, &vec!["en".into()]);
    assert_eq!(cp.dirty_count(), 0);
    assert!(cp.last_event_id("en").is_none());
}
