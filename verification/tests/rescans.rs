use vault_write::enhanced::EnhancedDoc;
use vault_write::error::StoreError;
use vault_write::index::{IndexEntity, TranscriptSummary, VaultIndex};
use vault_write::keyed::Keyed;
use vault_write::meta::SessionMeta;
use vault_write::rebuild::{
    record_error, reconcile_session, stale_session_ids, swap_locations, Location, RebuildReport,
    SessionReads,
};

fn meta(id: &str, title: &str) -> SessionMeta {
    SessionMeta {
        id: id.to_string(),
        title: title.to_string(),
        started_at: None,
        ended_at: None,
        created_at: "2026-07-24T00:00:00Z".to_string(),
        tags: vec![],
        tag_suggestions: None,
        tracking_id: None,
        folder: None,
        author: None,
        skill_json: None,
        extra_json: "{}".to_string(),
        event_tracking_id: None,
    }
}

fn doc(id: &str, title: &str) -> EnhancedDoc {
    EnhancedDoc {
        id: id.to_string(),
        session_id: "s1".to_string(),
        kind: "summary".to_string(),
        title: title.to_string(),
        template_id: String::new(),
        sort_order: 0,
        markdown: "body".to_string(),
    }
}

fn summary(ids: &[&str]) -> TranscriptSummary {
    TranscriptSummary {
        transcript_ids: ids.iter().map(|s| s.to_string()).collect(),
        has_words: true,
        word_count: 1,
        content_hash: 42,
    }
}

fn reads(title: &str, note: Option<&str>) -> SessionReads {
    SessionReads {
        meta: Ok(meta("s1", title)),
        note: Ok(note.map(|n| n.to_string())),
        docs: Ok(vec![("d1".to_string(), Ok(doc("d1", "Doc")))]),
        transcripts: Ok(summary(&["t1"])),
        tasks: Some(vec![]),
    }
}

fn entities(changes: &[(IndexEntity, String)]) -> Vec<IndexEntity> {
    changes.iter().map(|c| c.0).collect()
}

#[test]
fn record_error_logs_every_line_and_keeps_the_first_error() {
    let mut errors = Vec::new();
    let mut first = None;
    record_error(&mut errors, &mut first, "s1: notes.md", StoreError::Io("a".to_string()));
    record_error(&mut errors, &mut first, "s1: transcript.json", StoreError::Serialize("b".to_string()));
    assert_eq!(errors, vec!["s1: notes.md: I/O error: a", "s1: transcript.json: Serialization error: b"]);
    assert!(matches!(first, Some(StoreError::Io(ref m)) if m == "a"));
}

#[test]
fn a_rescan_indexes_what_the_files_hold_and_a_second_one_stays_silent() {
    let mut index = VaultIndex::new();
    let mut report = RebuildReport::new();
    let mut first = None;
    let changes = reconcile_session(&mut index, "s1", reads("Planning", Some("# notes")), &mut report, &mut first);
    assert_eq!(entities(&changes), vec![IndexEntity::Sessions, IndexEntity::Docs, IndexEntity::Transcripts]);
    assert_eq!(report.sessions, 1);
    assert_eq!(report.notes, 2);
    assert_eq!(report.transcripts, 1);
    assert!(report.errors.is_empty() && first.is_none());
    assert_eq!(index.session_get("s1").unwrap().note_markdown.as_deref(), Some("# notes"));

    let again = reconcile_session(&mut index, "s1", reads("Planning", Some("# notes")), &mut report, &mut first);
    assert!(again.is_empty(), "unchanged files notify nothing");

    let edited = reconcile_session(&mut index, "s1", reads("Renamed", Some("# notes")), &mut report, &mut first);
    assert_eq!(entities(&edited), vec![IndexEntity::Sessions]);
    assert_eq!(index.session_get("s1").unwrap().meta.title, "Renamed");
}

#[test]
fn unreadable_files_keep_their_entries_and_are_logged() {
    let mut index = VaultIndex::new();
    let mut report = RebuildReport::new();
    let mut first = None;
    reconcile_session(&mut index, "s1", reads("Planning", Some("# notes")), &mut report, &mut first);

    let broken = SessionReads {
        meta: Err(StoreError::Serialize("bad json".to_string())),
        note: Ok(Some("# new notes".to_string())),
        docs: Ok(vec![("d1".to_string(), Err(StoreError::Serialize("bad frontmatter".to_string())))]),
        transcripts: Err(StoreError::Io("denied".to_string())),
        tasks: None,
    };
    let mut report = RebuildReport::new();
    let mut first = None;
    let changes = reconcile_session(&mut index, "s1", broken, &mut report, &mut first);
    assert_eq!(entities(&changes), vec![IndexEntity::Sessions]);
    let record = index.session_get("s1").unwrap();
    assert_eq!(record.meta.title, "Planning", "corrupt metadata never looks like deletion");
    assert_eq!(record.note_markdown.as_deref(), Some("# new notes"));
    assert_eq!(index.session_enhanced_docs("s1")[0].title, "Doc", "the unparseable doc keeps its entry");
    assert!(index.session_has_transcript("s1"));
    assert_eq!(
        report.errors,
        vec![
            "s1: _meta.json: Serialization error: bad json",
            "s1: enhanced/d1.md: Serialization error: bad frontmatter",
            "s1: transcript.json: I/O error: denied",
        ]
    );
    assert!(matches!(first, Some(StoreError::Serialize(ref m)) if m == "bad json"));
    assert_eq!(report.sessions, 0);
    assert_eq!(report.notes, 1);
}

#[test]
fn an_unlistable_docs_directory_is_not_a_deletion() {
    let mut index = VaultIndex::new();
    let mut report = RebuildReport::new();
    let mut first = None;
    reconcile_session(&mut index, "s1", reads("Planning", None), &mut report, &mut first);
    let mut listing_failed = reads("Planning", None);
    listing_failed.docs = Err(StoreError::Io("denied".to_string()));
    let changes = reconcile_session(&mut index, "s1", listing_failed, &mut report, &mut first);
    assert!(changes.is_empty());
    assert_eq!(index.session_enhanced_docs("s1").len(), 1);
    assert_eq!(report.errors, vec!["s1: I/O error: denied"]);
}

#[test]
fn reports_merge_in_scan_order() {
    let mut total = RebuildReport::new();
    let mut sub = RebuildReport::new();
    sub.sessions = 2;
    sub.errors.push("e1".to_string());
    sub.ghost_sessions.push("g".to_string());
    total.merge(sub);
    let mut sub = RebuildReport::new();
    sub.notes = 3;
    sub.errors.push("e2".to_string());
    total.merge(sub);
    assert_eq!((total.sessions, total.notes), (2, 3));
    assert_eq!(total.errors, vec!["e1", "e2"]);
    assert_eq!(total.ghost_sessions, vec!["g"]);
}

#[test]
fn stale_ids_exclude_present_protected_and_the_vault_tasks_key() {
    let mut index = VaultIndex::new();
    index.upsert_meta(meta("gone", "A"));
    index.upsert_meta(meta("kept", "B"));
    index.set_transcript_summary("gone", summary(&["t"]));
    index.set_transcript_summary("locked", summary(&["t"]));
    index.set_tasks("", vec![]);
    let mut stale = stale_session_ids(&index, &vec!["kept".to_string()], &vec!["locked".to_string()]);
    stale.sort();
    assert_eq!(stale, vec!["gone"]);
}

fn loc(dir: &str) -> Location {
    Location { dir: dir.to_string(), key: dir.to_string() }
}

#[test]
fn the_catalog_swap_keeps_protected_locations_and_reports_moves() {
    let previous = vec![
        Keyed { key: "a".to_string(), value: loc("sessions/a") },
        Keyed { key: "b".to_string(), value: loc("sessions/b") },
        Keyed { key: "c".to_string(), value: loc("sessions/c") },
        Keyed { key: "d".to_string(), value: loc("sessions/d") },
    ];
    let scanned = vec![
        ("a".to_string(), loc("sessions/a")),
        ("b".to_string(), loc("sessions/b2")),
        ("e".to_string(), loc("sessions/e")),
    ];
    let (catalog, moved) = swap_locations(
        &previous,
        scanned,
        &vec!["c".to_string(), "d".to_string()],
        &vec!["d".to_string()],
    );
    let mut ids: Vec<&str> = catalog.iter().map(|k| k.key.as_str()).collect();
    ids.sort();
    assert_eq!(ids, vec!["a", "b", "c", "e"]);
    assert_eq!(moved, vec!["b", "d", "e"]);
}
