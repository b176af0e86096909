use vault_write::error::StoreError;
use vault_write::files::{
    attachment_candidate, canonical_audio_dir, canonical_audio_file_name, file_name, infer_audio,
    sanitize_filename, saved_attachment, AudioLayout, AudioSource,
};
use vault_write::index::{TranscriptSummary, VaultIndex};
use vault_write::layout::{
    finish_migration, plan_migration, preflight, record_rename, MigrationReport, ScannedSession,
    SessionLayoutScan, StartupLayout,
};
use vault_write::meta::SessionMeta;
use vault_write::recording::RecordingReservations;
use vault_write::stats::{duration_seconds, session_rows, stats_fit_exec, vault_stats, year_of};
use vault_write::storage::{category, EntryKind, VaultStorageCategory, VaultStorageStats, WalkStep};
use vault_write::summary::{
    canonical_summary_step, check_source_before_trash, check_summary_edit, deferred_migration_outcome,
    pick_legacy_summary, set_summary, summary_get, FileRead,
};
use vault_write::sync::{check_intent, path_starts_with_exec, staging_is_outside_vault, DeletionIntent};
use vault_write::whisper::LoadedWhisperBuilder;

fn meta(id: &str, created_at: &str) -> SessionMeta {
    SessionMeta {
        id: id.to_string(),
        title: "T".to_string(),
        started_at: None,
        ended_at: None,
        created_at: created_at.to_string(),
        tags: vec![],
        tag_suggestions: None,
        tracking_id: None,
        folder: None,
        author: None,
        skill_json: None,
        extra_json: "{}".to_string(),
        event_tracking_id: None,
    }
}

#[test]
fn directory_components_are_stripped_and_empty_filename_errors() {
    assert_eq!(sanitize_filename("nested/path/evil.txt").unwrap(), "evil.txt");
    assert_eq!(sanitize_filename("présentation été.png").unwrap(), "présentation été.png");
    assert!(sanitize_filename("").is_err());
    assert!(sanitize_filename("a/..").is_err());
    assert!(sanitize_filename("back\\slash.txt").is_err());
    match sanitize_filename("") {
        Err(StoreError::Io(m)) => assert_eq!(m, "invalid attachment filename"),
        _ => panic!("expected an I/O error"),
    }
    assert_eq!(file_name("a/b/./"), Some("b".to_string()));
}

#[test]
fn same_filename_twice_dedupes_with_a_counter_suffix() {
    assert_eq!(attachment_candidate("file.txt", 0), "file.txt");
    assert_eq!(attachment_candidate("file.txt", 1), "file 1.txt");
    assert_eq!(attachment_candidate("image 73.png", 1), "image 73 1.png");
    assert_eq!(attachment_candidate("archive.tar.gz", 2), "archive.tar 2.gz");
    assert_eq!(attachment_candidate("README", 3), "README 3");
    assert_eq!(attachment_candidate(".env", 1), ".env 1");
    let saved = saved_attachment("sessions/abc123", "shot.png".to_string());
    assert_eq!(saved.attachment_id, "shot.png");
    assert_eq!(saved.relative_path, "sessions/abc123/attachments/shot.png");
}

#[test]
fn recordings_are_named_by_their_lowercased_extension() {
    assert_eq!(canonical_audio_file_name("/tmp/rec.MP3").unwrap(), "audio.mp3");
    assert_eq!(canonical_audio_file_name("x.wav").unwrap(), "audio.wav");
    match canonical_audio_file_name("x.flac") {
        Err(StoreError::Io(m)) => assert_eq!(
            m,
            "unsupported audio extension \"flac\": a recording stored under it would be invisible to the app"
        ),
        _ => panic!("expected an I/O error"),
    }
    assert!(canonical_audio_file_name("/tmp/noext").is_err());
    assert_eq!(canonical_audio_dir("/v/sessions/s1", "s1", Some("/tmp/s1"), false), "/tmp/s1");
    assert_eq!(canonical_audio_dir("/v/sessions/s1", "s1", Some("/tmp/x"), true), "/tmp/x");
    assert_eq!(canonical_audio_dir("/v/sessions/s1", "s1", Some("/tmp/x"), false), "/v/sessions/s1");
    assert_eq!(canonical_audio_dir("/v/sessions/s1", "s1", None, false), "/v/sessions/s1");
}

#[test]
fn legacy_provenance_overrides_recording_timestamps() {
    let import = infer_audio(true, &vec![Some("import".to_string()), Some("recording".to_string())]);
    assert_eq!((import.source, import.layout), (AudioSource::Import, AudioLayout::Mixed));
    assert_eq!(infer_audio(true, &vec![Some("recording".to_string())]).layout, AudioLayout::MicSystem);
    assert_eq!(infer_audio(true, &vec![]).layout, AudioLayout::MicSystem);
    assert_eq!(infer_audio(true, &vec![None]).layout, AudioLayout::Mixed);
    assert_eq!(infer_audio(false, &vec![]).layout, AudioLayout::Mixed);
}

#[test]
fn storage_categories_follow_the_lowercased_extension() {
    assert_eq!(category("audio.MP3"), VaultStorageCategory::Mp3);
    assert_eq!(category("photo.HEIC"), VaultStorageCategory::Images);
    assert_eq!(category("notes.md"), VaultStorageCategory::Markdown);
    assert_eq!(category(".hidden.json"), VaultStorageCategory::Other);
    assert_eq!(category("empty.txt"), VaultStorageCategory::Other);
    assert_eq!(category("transcript.json"), VaultStorageCategory::Json);
}

#[test]
fn counts_attachments_hidden_files_and_trash_once() {
    let mut stats = VaultStorageStats::new();
    assert_eq!(stats.visit(1, "sessions", EntryKind::Directory, false), WalkStep::Descend { in_trash: false });
    assert_eq!(stats.visit(1, ".trash", EntryKind::Directory, false), WalkStep::Descend { in_trash: true });
    stats.visit(3, "audio.MP3", EntryKind::File { bytes: 100 }, false);
    stats.visit(4, "audio.wav", EntryKind::File { bytes: 200 }, false);
    stats.visit(3, ".hidden.json", EntryKind::File { bytes: 7 }, false);
    stats.visit(3, "audio.mp3", EntryKind::File { bytes: 20 }, true);
    stats.visit(1, ".loofah-lock", EntryKind::File { bytes: 9 }, false);
    stats.visit(2, ".audio.mp3.icloud", EntryKind::File { bytes: 4 }, false);
    stats.visit(2, "outside.mp3", EntryKind::Symlink, false);
    assert_eq!(stats.visit(64, "deep", EntryKind::Directory, false), WalkStep::Done);
    stats.finish();
    assert_eq!(stats.total_bytes, 327);
    assert_eq!(stats.files, 4);
    assert_eq!((stats.trash_bytes, stats.trash_files), (20, 1));
    assert_eq!((stats.unreadable_entries, stats.skipped_links), (1, 1));
    assert!(stats.scan_limited);
    assert_eq!(stats.categories[0].category, VaultStorageCategory::Wav);
    assert_eq!(stats.categories[1].category, VaultStorageCategory::Mp3);
    assert_eq!(stats.categories.iter().map(|c| c.bytes).sum::<u64>(), stats.total_bytes);
    assert_eq!(stats.categories.len(), 7);
}

#[test]
fn years_and_durations_come_from_the_timestamps() {
    assert_eq!(year_of("2026-01-02T00:00:00Z"), Some(2026));
    assert_eq!(year_of("+123-01"), Some(123));
    assert_eq!(year_of("20x6"), None);
    assert_eq!(year_of("202"), None);
    assert_eq!(
        duration_seconds(&Some("2026-01-01T00:00:00Z".to_string()), &Some("2026-01-01T00:01:30.5Z".to_string())),
        90
    );
    assert_eq!(
        duration_seconds(&Some("2026-01-01T00:01:00Z".to_string()), &Some("2026-01-01T00:00:00Z".to_string())),
        0
    );
    assert_eq!(duration_seconds(&Some("nope".to_string()), &Some("2026-01-01T00:00:00Z".to_string())), 0);
    assert_eq!(duration_seconds(&None, &Some("2026-01-01T00:00:00Z".to_string())), 0);
}

#[test]
fn vault_stats_counts_from_the_index_and_the_disk_pass() {
    let mut index = VaultIndex::new();
    let mut a = meta("a", "2025-05-01T00:00:00Z");
    a.started_at = Some("2026-01-01T00:00:00Z".to_string());
    a.ended_at = Some("2026-01-01T00:10:00Z".to_string());
    index.upsert_meta(a);
    index.upsert_meta(meta("b", "2024-02-01T00:00:00Z"));
    index.set_note("b", Some(" text ".to_string()));
    index.set_transcript_summary(
        "a",
        TranscriptSummary { transcript_ids: vec!["t".to_string()], has_words: true, word_count: 12, content_hash: 0 },
    );
    let rows = session_rows(&index);
    let recs: Vec<Option<u64>> = rows.iter().map(|r| if r.id == "a" { Some(500) } else { None }).collect();
    assert!(stats_fit_exec(&index, &rows, &recs));
    let stats = vault_stats(&index, &rows, &recs);
    assert_eq!(stats.sessions, 2);
    assert_eq!(stats.notes, 1);
    assert_eq!((stats.recordings, stats.recording_bytes), (1, 500));
    assert_eq!(stats.transcript_words, 12);
    assert_eq!(stats.duration_seconds, 600);
    assert_eq!(stats.first_session_at.as_deref(), Some("2024-02-01T00:00:00Z"));
    let years: Vec<(u32, u64, u64)> = stats.years.iter().map(|y| (y.year, y.sessions, y.recordings)).collect();
    assert_eq!(years, vec![(2024, 1, 0), (2026, 1, 1)]);
}

#[test]
fn deletion_intents_must_point_into_the_vault_trash() {
    let intent = DeletionIntent {
        version: 1,
        vault: "/v".to_string(),
        session: "s1".to_string(),
        trash: "/v/.trash/2026-01-01/sessions/s1".to_string(),
    };
    assert!(check_intent(&intent, "/v", "s1"));
    assert!(!check_intent(&intent, "/w", "s1"));
    assert!(!check_intent(&intent, "/v", "s2"));
    let outside = DeletionIntent { trash: "/v/.trashcan/x".to_string(), ..intent };
    assert!(!check_intent(&outside, "/v", "s1"));
    assert!(path_starts_with_exec("/a//b/./c", "/a/b"));
    assert!(!path_starts_with_exec("/ab", "/a"));
    assert!(staging_is_outside_vault("/data/staging/abc", "/home/me/vault"));
    assert!(!staging_is_outside_vault("/home/me/vault/.sync", "/home/me/vault"));
}

fn scanned(id: &str, dir: &str) -> ScannedSession {
    ScannedSession { id: id.to_string(), relative_dir: dir.to_string(), meta: meta(id, "2026-01-01T00:00:00Z") }
}

#[test]
fn migration_moves_legacy_directories_once() {
    let mut scan = SessionLayoutScan {
        sessions: vec![
            scanned("s1", "sessions/s1"),
            scanned("s2", "sessions/Weekly sync"),
            scanned("s3", "sessions/0190a8b2-0000-7000-8000-000000000000"),
            scanned("s4", "sessions/Old"),
        ],
        errors: vec!["z: layout".to_string()],
        duplicate_ids: vec![],
        broken_dirs: vec![],
        ghost_dirs: vec![],
    };
    let (mut report, candidates) = plan_migration(&scan, &vec![false, false, true, false]);
    assert_eq!(candidates.len(), 2);
    assert_eq!(candidates[0].to, "sessions/s2");
    assert_eq!(
        report.skipped,
        vec![
            "z: layout".to_string(),
            "sessions/0190a8b2-0000-7000-8000-000000000000: directory UUID does not match metadata id \"s3\"".to_string(),
        ]
    );
    let eligible = preflight(&scan, candidates, &vec![None, Some("destination sessions/s4 is occupied".to_string())], &mut report);
    assert_eq!(eligible.len(), 1);
    assert_eq!(report.skipped.last().unwrap(), "sessions/Old: destination sessions/s4 is occupied");
    for candidate in eligible {
        record_rename(&mut scan, &mut report, candidate, Ok(()));
    }
    assert_eq!(report.renamed, vec![("sessions/Weekly sync".to_string(), "sessions/s2".to_string())]);
    finish_migration(&mut scan, &report);
    let dirs: Vec<&str> = scan.sessions.iter().map(|s| s.relative_dir.as_str()).collect();
    assert_eq!(dirs, vec!["sessions/s1", "sessions/s2"]);
    let layout = StartupLayout { scan, migration: report };
    assert_eq!(layout.session_count(), 2);
    assert_eq!(layout.scan.errors[layout.scan.errors.len() - 1], "z: layout");
}

#[test]
fn competing_claims_block_each_other() {
    let scan = SessionLayoutScan {
        sessions: vec![scanned("s1", "sessions/A"), scanned("s1", "sessions/B")],
        errors: vec![],
        duplicate_ids: vec![],
        broken_dirs: vec![],
        ghost_dirs: vec![],
    };
    let (mut report, candidates) = plan_migration(&scan, &vec![false, false]);
    let eligible = preflight(&scan, candidates, &vec![None, None], &mut report);
    assert!(eligible.is_empty());
    assert_eq!(report.skipped, vec![
        "sessions/A: multiple migration sources claim this id".to_string(),
        "sessions/B: multiple migration sources claim this id".to_string(),
    ]);
    let failed = MigrationReport { renamed: vec![], skipped: vec![], failed: vec![] };
    assert!(failed.failed.is_empty());
}

#[test]
fn summaries_are_stored_and_edits_checked() {
    let mut index = VaultIndex::new();
    assert!(set_summary(&mut index, "s1", Some("# Sum".to_string())));
    assert!(!set_summary(&mut index, "s1", Some("# Sum".to_string())));
    assert_eq!(summary_get(&index, "s1").as_deref(), Some("# Sum"));
    assert!(set_summary(&mut index, "s1", None));
    assert!(summary_get(&index, "s1").is_none());
    assert!(check_summary_edit(Some("old"), "new", "x", false).is_err());
    assert!(check_summary_edit(Some("old"), "new", "new", true).is_ok());
    assert!(check_summary_edit(None, "new", "x", false).is_ok());
    assert!(canonical_summary_step(None, "m").unwrap());
    assert!(!canonical_summary_step(Some("m"), "m").unwrap());
    assert!(canonical_summary_step(Some("other"), "m").is_err());
    assert!(check_source_before_trash(FileRead::Missing("gone".to_string()), "o").is_ok());
    assert!(check_source_before_trash(FileRead::Content("changed".to_string()), "o").is_err());
    assert!(pick_legacy_summary(vec![]).unwrap().is_none());
    assert!(deferred_migration_outcome(Err(StoreError::Conflict("c".to_string())), false, 1).is_ok());
    assert!(deferred_migration_outcome(Err(StoreError::Conflict("c".to_string())), true, 1).is_err());
}

#[test]
fn a_failed_duplicate_start_releases_only_its_own_reservation() {
    let mut reservations = RecordingReservations::new();
    reservations.reserve("s1");
    reservations.reserve("s1");
    assert!(!reservations.release("s1"));
    assert!(reservations.is_recording("s1"));
    assert!(reservations.release("s1"));
    assert!(!reservations.is_recording("s1"));
    assert!(!reservations.release("s1"));
    reservations.note_active("s2");
    reservations.note_active("s2");
    assert!(reservations.release("s2"));
}

#[test]
fn the_whisper_builder_keeps_the_model_path() {
    assert!(LoadedWhisperBuilder::new().configured_model_path().is_none());
    let builder = LoadedWhisperBuilder::default().model_path("/models/ggml.bin".to_string());
    assert_eq!(builder.configured_model_path().map(|p| p.as_str()), Some("/models/ggml.bin"));
}
