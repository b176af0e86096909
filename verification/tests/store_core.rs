use vault_write::digest::sha256_hex;
use vault_write::error::StoreError;
use vault_write::index::{coalesce, IndexChanged, IndexEntity};
use vault_write::journal::WriteJournal;
use vault_write::paths::{validate_doc_id, validate_relative_path, validate_session_id};
use vault_write::people::{person_id_slug, unique_person_id, PersonItem};
use vault_write::transcript::{next_retry_delay, DEBOUNCE_MS, RETRY_DELAY_CAP_MS};

fn person(id: &str, name: &str) -> PersonItem {
    PersonItem {
        id: id.to_string(),
        name: name.to_string(),
    }
}

fn changed(entity: IndexEntity, ids: &[&str]) -> IndexChanged {
    IndexChanged {
        entity,
        ids: ids.iter().map(|s| s.to_string()).collect(),
    }
}

fn same_events(a: &[IndexChanged], b: &[IndexChanged]) -> bool {
    a.len() == b.len() && a.iter().zip(b).all(|(x, y)| x.entity == y.entity && x.ids == y.ids)
}

#[test]
fn conflict_error_stringifies_with_a_stable_prefix() {
    let err = StoreError::Conflict("x".to_string());
    assert!(err.to_string().starts_with("conflict:"));
}

#[test]
fn other_errors_stringify_with_their_own_prefix() {
    assert_eq!(StoreError::Io("disk".to_string()).to_string(), "I/O error: disk");
    assert_eq!(
        StoreError::Serialize("bad".to_string()).to_string(),
        "Serialization error: bad"
    );
    assert!(StoreError::Conflict("c".to_string()).is_conflict());
    assert!(!StoreError::Io("c".to_string()).is_conflict());
}

#[test]
fn coalesce_groups_and_dedupes_locations_changes() {
    let events = coalesce(vec![
        (IndexEntity::Locations, vec!["s1".to_string()]),
        (IndexEntity::Sessions, vec!["s1".to_string()]),
        (
            IndexEntity::Locations,
            vec!["s2".to_string(), "s1".to_string()],
        ),
    ]);
    assert!(same_events(
        &events,
        &[
            changed(IndexEntity::Sessions, &["s1"]),
            changed(IndexEntity::Locations, &["s1", "s2"]),
        ]
    ));
}

#[test]
fn coalesce_emits_every_entity_in_the_stable_order() {
    let events = coalesce(vec![
        (IndexEntity::Tags, vec!["t1".to_string()]),
        (IndexEntity::Docs, vec!["s2".to_string(), "s2".to_string()]),
        (IndexEntity::Tasks, vec![]),
        (IndexEntity::Docs, vec!["s1".to_string()]),
    ]);
    assert!(same_events(
        &events,
        &[
            changed(IndexEntity::Docs, &["s2", "s1"]),
            changed(IndexEntity::Tasks, &[]),
            changed(IndexEntity::Tags, &["t1"]),
        ]
    ));
    assert!(coalesce(vec![]).is_empty());
}

#[test]
fn session_and_doc_ids_must_be_a_single_safe_path_segment() {
    for id in [
        "",
        ".",
        "..",
        "../evil",
        "a/b",
        "a\\b",
        "/Users/me/Documents",
        ".hidden",
    ] {
        assert!(validate_session_id(id).is_err(), "{id:?}");
        assert!(validate_doc_id(id).is_err(), "{id:?}");
    }
    assert!(validate_session_id("01JABCDEF").is_ok());
    assert!(validate_doc_id("doc-1").is_ok());
}

#[test]
fn invalid_ids_name_the_kind_and_quote_the_id() {
    match validate_session_id("a/b") {
        Err(StoreError::Io(message)) => assert_eq!(message, "invalid session id: \"a/b\""),
        _ => panic!("expected an I/O error"),
    }
    match validate_doc_id("") {
        Err(StoreError::Io(message)) => assert_eq!(message, "invalid enhanced doc id: \"\""),
        _ => panic!("expected an I/O error"),
    }
}

#[test]
fn relative_paths_must_stay_inside_the_vault() {
    assert!(validate_relative_path("sessions/s1/notes.md").is_ok());
    assert!(validate_relative_path("sessions//s1/./notes.md").is_ok());
    assert!(validate_relative_path("").is_err());
    assert!(validate_relative_path("/etc/passwd").is_err());
    assert!(validate_relative_path("./notes.md").is_err());
    assert!(validate_relative_path("sessions/../../etc").is_err());
}

#[test]
fn slugifies_names() {
    assert_eq!(person_id_slug("Bob Peters"), "bob_peters");
    assert_eq!(person_id_slug("  José! "), "jos");
    assert_eq!(person_id_slug("李明"), "person");
    assert_eq!(person_id_slug("a - b -- c"), "a_b_c");
    assert_eq!(person_id_slug("O'Brien, Anne-Marie"), "o_brien_anne_marie");
    assert_eq!(person_id_slug("!!!"), "person");
}

#[test]
fn suffixes_colliding_ids() {
    let existing = vec![person("bob_peters", "Bob Peters")];
    assert_eq!(unique_person_id(&existing, "Bob! Peters"), "bob_peters_2");

    let existing = vec![
        person("bob_peters", "Bob Peters"),
        person("bob_peters_2", "Bob Peters"),
    ];
    assert_eq!(unique_person_id(&existing, "Bob Peters"), "bob_peters_3");
}

#[test]
fn unique_person_id_keeps_a_free_slug() {
    assert_eq!(unique_person_id(&vec![], "Ann"), "ann");
    let existing = vec![person("bob_peters_2", "Other")];
    assert_eq!(unique_person_id(&existing, "Bob Peters"), "bob_peters");
}

#[test]
fn retry_delay_doubles_and_caps_without_ever_reaching_zero() {
    let mut delay = DEBOUNCE_MS;
    let mut observed = Vec::new();
    for _ in 0..8 {
        delay = next_retry_delay(delay);
        observed.push(delay / 1000);
    }
    assert_eq!(observed, vec![2, 4, 8, 16, 30, 30, 30, 30]);
}

#[test]
fn retry_delay_is_exact_below_and_at_the_cap() {
    assert_eq!(next_retry_delay(1), 2);
    assert_eq!(next_retry_delay(14_999), 29_998);
    assert_eq!(next_retry_delay(15_000), RETRY_DELAY_CAP_MS);
    assert_eq!(next_retry_delay(RETRY_DELAY_CAP_MS), RETRY_DELAY_CAP_MS);
}

#[test]
fn journal_records_and_validates_hashes() {
    let mut journal = WriteJournal::new();
    let data = b"test content";
    let hash = sha256_hex(data);

    journal.record("test.txt", &hash);
    assert!(journal.hash_of("test.txt").is_some());
    assert_eq!(journal.len(), 1);
}

#[test]
fn matches_current_file_returns_false_for_missing_file() {
    let mut journal = WriteJournal::new();
    let data = b"data";
    let hash = sha256_hex(data);
    journal.record("missing.txt", &hash);

    assert!(!journal.matches_current_file("missing.txt", None));
}

#[test]
fn matches_current_file_compares_the_current_bytes() {
    let mut journal = WriteJournal::new();
    journal.record("test.txt", &sha256_hex(b"hello world"));
    assert!(journal.matches_current_file("test.txt", Some(b"hello world")));
    assert!(!journal.matches_current_file("test.txt", Some(b"goodbye world")));
    assert!(!journal.matches_current_file("other.txt", Some(b"hello world")));
}

#[test]
fn sha256_hex_is_lowercase_hex_of_the_digest() {
    assert_eq!(
        sha256_hex(b""),
        "e3b0c44298fc1c149afbf4c8996fb92427ae41e4649b934ca495991b7852b855"
    );
    assert_eq!(
        sha256_hex(b"abc"),
        "ba7816bf8f01cfea414140de5dae2223b00361a396177a9cb410ff61f20015ad"
    );
}

#[test]
fn remap_prefix_moves_entries_under_the_renamed_directory_only() {
    let mut journal = WriteJournal::new();
    let hash = sha256_hex(b"bytes");
    journal.record("sessions/old name/notes.md", &hash);
    journal.record("sessions/old name/enhanced/d1.md", &hash);
    journal.record("sessions/old name sibling/notes.md", &hash);

    journal.remap_prefix("sessions/old name", "sessions/new name");

    assert!(journal.matches_current_file("sessions/new name/enhanced/d1.md", Some(b"bytes")));
    assert!(journal.matches_current_file("sessions/new name/notes.md", Some(b"bytes")));
    assert!(!journal.matches_current_file("sessions/old name/notes.md", Some(b"bytes")));
    assert!(journal.matches_current_file("sessions/old name sibling/notes.md", Some(b"bytes")));
    assert_eq!(journal.len(), 3);
}

#[test]
fn matches_current_file_returns_true_for_unchanged_content() {
    let mut journal = WriteJournal::new();
    let data = b"hello world";
    let hash = sha256_hex(data);
    journal.record("test.txt", &hash);

    assert!(journal.matches_current_file("test.txt", Some(data)));
}

#[test]
fn matches_current_file_returns_false_for_changed_content() {
    let mut journal = WriteJournal::new();
    let hash = sha256_hex(b"hello world");
    journal.record("test.txt", &hash);

    assert!(!journal.matches_current_file("test.txt", Some(b"goodbye world")));
}
