use vault_write::enhanced::EnhancedDoc;
use vault_write::error::StoreError;
use vault_write::files::{
    check_audio_import, imported_audio, resolve_audio, AudioLayout, AudioSource, SessionAudio,
    enhanced_doc_stem, is_attachment_entry, is_legacy_template_file, is_session_content_file,
};
use vault_write::index::VaultIndex;
use vault_write::journal::{needs_backup, ExistingFile};
use vault_write::layout::check_restore;
use vault_write::paths::{is_same_file_path, path_components_of, paths_equal};
use vault_write::recording::{vault_move_check, RecordingReservations};
use vault_write::strings::{str_ends_with, str_starts_with};

fn doc(session_id: &str, id: &str) -> EnhancedDoc {
    EnhancedDoc {
        id: id.to_string(),
        session_id: session_id.to_string(),
        kind: "summary".to_string(),
        title: "Summary".to_string(),
        template_id: "t".to_string(),
        sort_order: 0,
        markdown: "# S".to_string(),
    }
}

#[test]
fn own_bytes_missing_files_and_identical_bytes_need_no_backup() {
    let next = b"new".to_vec();
    assert!(!needs_backup(true, &ExistingFile::Bytes(b"old".to_vec()), &next));
    assert!(!needs_backup(false, &ExistingFile::Missing, &next));
    assert!(!needs_backup(false, &ExistingFile::Bytes(b"new".to_vec()), &next));
}

#[test]
fn foreign_or_unreadable_bytes_are_backed_up() {
    let next = b"new".to_vec();
    assert!(needs_backup(false, &ExistingFile::Bytes(b"edited elsewhere".to_vec()), &next));
    assert!(needs_backup(false, &ExistingFile::Unreadable, &next));
}

#[test]
fn restore_refuses_a_directory_claiming_another_id() {
    match check_restore(".trash/x/sessions/s1", "s2", "s1", "sessions/s1", false) {
        Err(StoreError::Io(m)) => assert_eq!(
            m,
            "trashed directory .trash/x/sessions/s1 claims session id \"s2\", not \"s1\"; refusing to restore"
        ),
        other => panic!("unexpected: {other:?}"),
    }
}

#[test]
fn restore_refuses_an_occupied_destination_and_accepts_a_free_one() {
    match check_restore(".trash/x/sessions/s1", "s1", "s1", "sessions/s1", true) {
        Err(StoreError::Io(m)) => assert_eq!(m, "restore destination sessions/s1 is already occupied"),
        other => panic!("unexpected: {other:?}"),
    }
    assert!(check_restore(".trash/x/sessions/s1", "s1", "s1", "sessions/s1", false).is_ok());
}

#[test]
fn vault_move_is_refused_while_recording_or_dirty() {
    match vault_move_check(true, true) {
        Err(StoreError::Conflict(m)) => {
            assert_eq!(m, "a recording is in progress; stop it before moving the vault")
        }
        other => panic!("unexpected: {other:?}"),
    }
    match vault_move_check(false, true) {
        Err(StoreError::Conflict(m)) => {
            assert_eq!(m, "transcript data is still being saved; try again in a moment")
        }
        other => panic!("unexpected: {other:?}"),
    }
    assert!(vault_move_check(false, false).is_ok());
}

#[test]
fn a_duplicate_reservation_released_keeps_the_first_recording_protected() {
    let mut leases = RecordingReservations::new();
    assert!(!leases.any_recording());
    leases.reserve("s1");
    leases.reserve("s1");
    assert!(!leases.release("s1"));
    assert!(leases.is_recording("s1"));
    assert!(leases.any_recording());
    assert!(leases.release("s1"));
    assert!(!leases.is_recording("s1"));
    assert!(!leases.any_recording());
    assert!(!leases.release("s1"));
}

#[test]
fn noting_an_active_recording_does_not_add_to_a_held_reservation() {
    let mut leases = RecordingReservations::new();
    leases.note_active("s1");
    leases.note_active("s1");
    assert!(leases.release("s1"));
    leases.reserve("s2");
    leases.note_active("s2");
    assert!(leases.release("s2"));
}

#[test]
fn session_content_is_a_markdown_document_or_the_transcript() {
    assert!(is_session_content_file("note.md"));
    assert!(is_session_content_file("transcript.json"));
    assert!(!is_session_content_file(".md"));
    assert!(!is_session_content_file("note.MD"));
    assert!(!is_session_content_file("_meta.json"));
    assert!(!is_session_content_file("audio.mp3"));
}

#[test]
fn hidden_entries_are_not_attachments() {
    assert!(is_attachment_entry("contract.pdf"));
    assert!(!is_attachment_entry(".DS_Store"));
}

#[test]
fn legacy_templates_are_visible_json_files_and_the_deleted_defaults_record() {
    assert!(is_legacy_template_file("standup.json"));
    assert!(is_legacy_template_file(".deleted-defaults.json"));
    assert!(!is_legacy_template_file(".hidden.json"));
    assert!(!is_legacy_template_file("readme.md"));
    assert!(!is_legacy_template_file("json"));
}

#[test]
fn suffix_and_prefix_checks() {
    assert!(str_ends_with("a.json", ".json"));
    assert!(!str_ends_with("json", ".json"));
    assert!(str_ends_with("x", ""));
    assert!(str_starts_with(".trash", "."));
}

#[test]
fn the_owner_of_a_doc_is_the_session_holding_it() {
    let mut index = VaultIndex::new();
    index.upsert_doc(doc("s1", "d1"));
    index.upsert_doc(doc("s2", "d2"));
    assert_eq!(index.session_owning_doc("d2").as_deref(), Some("s2"));
    assert_eq!(index.session_owning_doc("d1").as_deref(), Some("s1"));
    assert_eq!(index.session_owning_doc("missing"), None);
}

#[test]
fn path_components_follow_path_rules() {
    assert_eq!(path_components_of("/a//b/./c/"), vec!["/", "a", "b", "c"]);
    assert_eq!(path_components_of("./a/../b"), vec![".", "a", "..", "b"]);
    assert_eq!(path_components_of("a/./b"), vec!["a", "b"]);
    assert!(path_components_of("").is_empty());
}

#[test]
fn paths_compare_by_components() {
    assert!(paths_equal("sessions/s1", "sessions//s1/"));
    assert!(paths_equal("sessions/./s1", "sessions/s1"));
    assert!(!paths_equal("/sessions/s1", "sessions/s1"));
    assert!(!paths_equal("sessions/s1", "sessions/s2"));
    assert!(!paths_equal("./a", "a"));
}

#[test]
fn same_file_uses_canonical_forms_when_both_resolve() {
    assert!(is_same_file_path("a/x.mp3", "b/x.mp3", Some("/v/x.mp3"), Some("/v/x.mp3")));
    assert!(!is_same_file_path("a/x.mp3", "a/x.mp3", Some("/v/a.mp3"), Some("/v/b.mp3")));
    assert!(is_same_file_path("a/x.mp3", "a//x.mp3", None, Some("/v/x.mp3")));
    assert!(!is_same_file_path("a/x.mp3", "b/x.mp3", Some("/v/x.mp3"), None));
}

#[test]
fn live_enhanced_documents_skip_hidden_and_conflict_files() {
    assert_eq!(enhanced_doc_stem("d1.md").as_deref(), Some("d1"));
    assert_eq!(enhanced_doc_stem("a.b.md").as_deref(), Some("a.b"));
    assert_eq!(enhanced_doc_stem(".tmp-1-2-d1.md"), None);
    assert_eq!(enhanced_doc_stem("d1.conflict-2026.md"), None);
    assert_eq!(enhanced_doc_stem("d1.txt"), None);
    assert_eq!(enhanced_doc_stem(".md"), None);
    assert_eq!(enhanced_doc_stem("..md").as_deref(), None);
}

#[test]
fn an_import_is_refused_while_recording() {
    match check_audio_import(true) {
        Err(StoreError::Conflict(m)) => assert_eq!(m, "cannot import audio while recording"),
        other => panic!("unexpected: {other:?}"),
    }
    assert!(check_audio_import(false).is_ok());
    assert_eq!(imported_audio().source, AudioSource::Import);
    assert_eq!(imported_audio().layout, AudioLayout::Mixed);
}

#[test]
fn an_interrupted_import_blocks_resolution() {
    match resolve_audio(true, Some(imported_audio()), true, &vec![]) {
        Err(StoreError::Io(m)) => assert_eq!(
            m,
            "Audio import was interrupted. Import the audio again before transcribing or recording."
        ),
        other => panic!("unexpected: {other:?}"),
    }
}

#[test]
fn recorded_audio_metadata_wins_over_inference() {
    let stored = SessionAudio { source: AudioSource::Recording, layout: AudioLayout::Mixed };
    let (audio, write) = resolve_audio(false, Some(stored), false, &vec![Some("import".to_string())]).unwrap();
    assert_eq!(audio, stored);
    assert!(!write);
}

#[test]
fn missing_audio_metadata_is_inferred_and_recorded() {
    let (audio, write) = resolve_audio(false, None, true, &vec![]).unwrap();
    assert_eq!(audio.source, AudioSource::Recording);
    assert_eq!(audio.layout, AudioLayout::MicSystem);
    assert!(write);
    let (audio, _) = resolve_audio(false, None, false, &vec![]).unwrap();
    assert_eq!(audio.source, AudioSource::Unknown);
}
