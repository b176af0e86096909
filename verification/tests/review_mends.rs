use vault_write::deletions::DeletionRegistry;
use vault_write::journal::WriteJournal;
use vault_write::layout::counts_as_session;
use vault_write::meta::is_tag_automation_candidate;
use vault_write::storage::{EntryKind, VaultStorageStats, WalkStep, MAX_DEPTH};
use vault_write::error::StoreError;
use vault_write::people::person_id_slug;
use vault_write::summary::{check_reread_kind, check_summary_slot, PathProbe};
use vault_write::tasks::{move_tasks_between, TaskFile, TaskItem, TaskScope};
use vault_write::transcript::{assign_speaker_hints, HintEntry, WordRef};
use vault_write::whisper::initial_prompt;

fn hint(id: &str, word: &str, kind: &str, idx: Option<u64>, v: &str) -> HintEntry<String> {
    HintEntry {
        id: Some(id.to_string()),
        word_id: word.to_string(),
        hint_type: kind.to_string(),
        speaker_index: idx,
        hint: v.to_string(),
    }
}

#[test]
fn a_speaker_assignment_keeps_other_hints_and_appends_the_label() {
    let words = vec![
        WordRef { id: Some("w1".to_string()), channel: 0 },
        WordRef { id: Some("w2".to_string()), channel: 1 },
    ];
    let hints = vec![
        hint("p1", "w1", "provider_speaker_index", Some(0), "{}"),
        hint("w1:speaker_label", "w1", "speaker_label", None, "Old"),
        hint("x", "w2", "speaker_label", None, "Other channel"),
    ];
    let next = assign_speaker_hints(hints, &words, 0, None, "w1", "Ana".to_string());
    let ids: Vec<&str> = next.iter().map(|h| h.id.as_deref().unwrap()).collect();
    assert_eq!(ids, vec!["p1", "x", "w1:speaker_label"]);
    let last = next.last().unwrap();
    assert_eq!(last.word_id, "w1");
    assert_eq!(last.hint_type, "speaker_label");
    assert_eq!(last.hint, "Ana");
    assert_eq!(last.speaker_index, None);
}

#[test]
fn migration_refuses_an_occupied_summary_and_a_changed_document() {
    match check_summary_slot(PathProbe::Exists) {
        Err(StoreError::Conflict(m)) => {
            assert_eq!(m, "summary.md already exists; move the conflicting file and restart")
        }
        other => panic!("unexpected: {other:?}"),
    }
    assert!(check_summary_slot(PathProbe::Missing).is_ok());
    match check_summary_slot(PathProbe::Failed("denied".to_string())) {
        Err(StoreError::Io(m)) => assert_eq!(m, "denied"),
        other => panic!("unexpected: {other:?}"),
    }
    assert!(check_reread_kind("summary").is_ok());
    match check_reread_kind("notes") {
        Err(StoreError::Conflict(m)) => assert_eq!(m, "legacy document changed during migration"),
        other => panic!("unexpected: {other:?}"),
    }
}

#[test]
fn a_deleted_session_is_refused_until_restored() {
    let mut r = DeletionRegistry::new();
    assert!(r.check_writable("s1").is_ok());
    r.record_deletion("s1", ".trash/x/sessions/s1".to_string());
    match r.check_writable("s1") {
        Err(StoreError::Io(m)) => assert_eq!(m, "session s1 was deleted"),
        other => panic!("unexpected: {other:?}"),
    }
    assert!(r.check_writable("s2").is_ok());
    assert_eq!(r.restore_target("s1").as_deref(), Some(".trash/x/sessions/s1"));
    r.finish_restore("s1", false);
    assert!(r.restore_target("s1").is_none());
    assert!(r.check_writable("s1").is_err());
    r.record_deletion("s1", ".trash/y/sessions/s1".to_string());
    r.finish_restore("s1", true);
    assert!(r.check_writable("s1").is_ok());
}

#[test]
fn the_prompt_joins_both_parts_trimmed() {
    assert_eq!(initial_prompt("  last words ", " names: Ana "), "last words\nnames: Ana");
    assert_eq!(initial_prompt("", " names "), "names");
    assert_eq!(initial_prompt(" prior ", ""), "prior");
    assert_eq!(initial_prompt("", ""), "");
}

#[test]
fn slugs_are_well_formed_and_idempotent() {
    for name in ["Ana María", "  Bo--Li  ", "!!!", "R2-D2", "x"] {
        let slug = person_id_slug(name);
        assert!(!slug.is_empty());
        assert!(slug.chars().all(|c| c.is_ascii_lowercase() || c.is_ascii_digit() || c == '_'));
        assert!(!slug.starts_with('_') && !slug.ends_with('_') && !slug.contains("__"));
        assert_eq!(person_id_slug(&slug), slug);
    }
    assert_eq!(person_id_slug("!!!"), "person");
    assert_eq!(person_id_slug("Ana María"), "ana_mar_a");
}

#[test]
fn a_move_may_end_exactly_at_the_largest_order() {
    let task = TaskItem {
        id: "a".to_string(),
        source_type: "session_raw_note".to_string(),
        source_id: "s1".to_string(),
        source_order: 0,
        status: "todo".to_string(),
        text: "A".to_string(),
        body_json: "{}".to_string(),
        due_at: String::new(),
        assignee: String::new(),
        created_at: "t".to_string(),
        updated_at: "t".to_string(),
    };
    let mut files = vec![
        TaskFile { scope: TaskScope::Vault, tasks: vec![], dirty: false },
        TaskFile { scope: TaskScope::Session("s1".to_string()), tasks: vec![task], dirty: false },
    ];
    move_tasks_between(&mut files, &vec!["a".to_string()], "vault", "root", i32::MAX, "now");
    assert_eq!(files[0].tasks[0].source_order, i32::MAX);
}

#[test]
fn trimming_removes_unicode_white_space_at_both_ends() {
    assert_eq!(initial_prompt("\u{3000}\t a b \u{85}\u{a0}", ""), "a b");
    assert_eq!(initial_prompt("\u{200b}x", ""), "\u{200b}x");
}

#[test]
fn links_and_directories_leave_every_other_counter_alone() {
    let mut stats = VaultStorageStats::new();
    stats.visit(2, "notes.md", EntryKind::File { bytes: 40 }, true);
    stats.note_unreadable();
    let before = (stats.total_bytes, stats.files, stats.trash_bytes, stats.trash_files, stats.unreadable_entries);
    assert_eq!(stats.visit(2, "loop", EntryKind::Symlink, true), WalkStep::Done);
    assert_eq!(stats.skipped_links, 1);
    assert_eq!(stats.visit(2, "inner", EntryKind::Directory, true), WalkStep::Descend { in_trash: true });
    assert!(!stats.scan_limited);
    assert_eq!(stats.visit(MAX_DEPTH, "deep", EntryKind::Directory, false), WalkStep::Done);
    assert!(stats.scan_limited);
    let after = (stats.total_bytes, stats.files, stats.trash_bytes, stats.trash_files, stats.unreadable_entries);
    assert_eq!(before, after);
    assert_eq!(before, (40, 1, 40, 1, 1));
    stats.finish();
    assert!(stats.trash_bytes <= stats.total_bytes && stats.trash_files <= stats.files);
}

#[test]
fn the_walk_stops_once_its_entry_or_time_budget_is_spent() {
    let mut stats = VaultStorageStats::new();
    assert!(!stats.check_budget(0, 1, 5, 10));
    assert!(!stats.scan_limited);
    assert!(stats.check_budget(1, 1, 5, 10));
    assert!(stats.scan_limited);
    let mut timed = VaultStorageStats::new();
    assert!(timed.check_budget(0, 100, 10, 10));
    assert!(timed.scan_limited);
    assert_eq!(timed.files, 0);
}

#[test]
fn only_plain_session_directories_with_metadata_are_discovered() {
    assert!(counts_as_session("sessions/Weekly sync", false, true, true));
    assert!(!counts_as_session("sessions/Work/nested", false, true, true));
    assert!(!counts_as_session("sessions/.hidden", false, true, true));
    assert!(!counts_as_session(".trash/old", false, true, true));
    assert!(!counts_as_session("sessions/no-meta", false, true, false));
    assert!(!counts_as_session("sessions/link", true, true, true));
    assert!(!counts_as_session("sessions/", false, true, true));
    assert!(!counts_as_session("sessions/file.md", false, false, true));
}

#[test]
fn import_tags_are_recognised_in_any_ascii_case() {
    assert!(!is_tag_automation_candidate("IMPORT"));
    assert!(!is_tag_automation_candidate("legacy-Import-2024"));
    assert!(is_tag_automation_candidate("Imprint"));
}

#[test]
fn a_rename_rekeys_only_the_renamed_directory() {
    let mut journal = WriteJournal::new();
    journal.record("sessions/a", "h0");
    journal.record("sessions/a/notes.md", "h1");
    journal.record("sessions/ab/notes.md", "h2");
    journal.record("other/a/notes.md", "h3");
    journal.remap_prefix("sessions/a", "sessions/z");
    assert_eq!(journal.hash_of("sessions/z").as_deref(), Some("h0"));
    assert_eq!(journal.hash_of("sessions/z/notes.md").as_deref(), Some("h1"));
    assert_eq!(journal.hash_of("sessions/a/notes.md"), None);
    assert_eq!(journal.hash_of("sessions/a"), None);
    assert_eq!(journal.hash_of("sessions/ab/notes.md").as_deref(), Some("h2"));
    assert_eq!(journal.hash_of("other/a/notes.md").as_deref(), Some("h3"));
    assert_eq!(journal.len(), 4);
}

#[test]
fn a_rename_to_a_longer_sibling_name_moves_each_entry_once() {
    let mut journal = WriteJournal::new();
    journal.record("sessions/x/notes.md", "h1");
    journal.record("sessions/x/enhanced/d1.md", "h2");
    journal.remap_prefix("sessions/x", "sessions/xy");
    assert_eq!(journal.hash_of("sessions/xy/notes.md").as_deref(), Some("h1"));
    assert_eq!(journal.hash_of("sessions/xy/enhanced/d1.md").as_deref(), Some("h2"));
    assert_eq!(journal.hash_of("sessions/x/notes.md"), None);
    assert_eq!(journal.len(), 2);
}
