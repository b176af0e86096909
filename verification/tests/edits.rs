use vault_write::enhanced::{apply_enhanced_patch, validate_kind, EnhancedDoc, EnhancedDocPatch};
use vault_write::error::StoreError;
use vault_write::meta::{
    accept_tag_suggestion, apply_meta_patch, complete_tag_suggestions, dismiss_tag_suggestion,
    is_tag_automation_candidate, mark_recording_ended, mark_recording_started,
    mark_tag_suggestions_pending, MetaChange, ScoredSuggestion, SessionMeta, SessionMetaPatch,
    TagSuggestionItem, TagSuggestionStatus,
};
use vault_write::people::{ensure_person_plan, EnsuredPerson, PersonItem};
use vault_write::summary::{check_migration_source, task_sync_error, FileRead};
use vault_write::tags::{ensure_tag_plan, EnsuredTag, TagItem};

fn meta(id: &str, title: &str) -> SessionMeta {
    SessionMeta {
        id: id.to_string(),
        title: title.to_string(),
        started_at: None,
        ended_at: None,
        created_at: "2026-01-01T00:00:00Z".to_string(),
        tags: vec![],
        tag_suggestions: None,
        tracking_id: None,
        folder: None,
        author: None,
        skill_json: None,
        extra_json: "{}".to_string(),
        event_tracking_id: None,
    }
}

fn written(change: MetaChange) -> SessionMeta {
    match change {
        MetaChange::Write(m) => m,
        MetaChange::Unchanged(_) => panic!("expected a write"),
    }
}

fn scored(name: &str, confidence: f32, threshold: Option<f32>) -> ScoredSuggestion {
    ScoredSuggestion {
        item: TagSuggestionItem { name: name.to_string(), confidence_bits: confidence.to_bits() },
        auto_accept: threshold.is_some_and(|t| confidence >= t),
    }
}

fn names(items: &[TagSuggestionItem]) -> Vec<&str> {
    items.iter().map(|i| i.name.as_str()).collect()
}

#[test]
fn suggestions_are_kept_and_then_accepted_or_dismissed() {
    let m = written(mark_tag_suggestions_pending(meta("s1", "Atlas launch"), "hash-1".to_string(), 1));
    let m = written(complete_tag_suggestions(
        m,
        "hash-1",
        1,
        vec![scored("project/atlas", 0.8, None), scored("customer/acme", 0.6, None)],
    ));
    assert_eq!(m.tag_suggestions.as_ref().unwrap().status, TagSuggestionStatus::Complete);
    let m = written(accept_tag_suggestion(m, "project/atlas".to_string()));
    let m = written(dismiss_tag_suggestion(m, "customer/acme".to_string()));
    assert_eq!(m.tags, vec!["project/atlas"]);
    let state = m.tag_suggestions.as_ref().unwrap();
    assert!(state.items.is_empty());
    assert_eq!(state.dismissed, vec!["customer/acme"]);

    let m = written(mark_tag_suggestions_pending(m, "hash-2".to_string(), 1));
    assert_eq!(m.tag_suggestions.as_ref().unwrap().dismissed, vec!["customer/acme"]);
    let m = written(complete_tag_suggestions(m, "hash-2", 1, vec![scored("customer/acme", 0.9, None)]));
    assert!(m.tag_suggestions.unwrap().items.is_empty());
}

#[test]
fn a_stale_completion_does_not_overwrite_new_work() {
    let m = written(mark_tag_suggestions_pending(meta("s1", "Atlas"), "new-hash".to_string(), 1));
    match complete_tag_suggestions(m, "old-hash", 1, vec![scored("project/atlas", 0.9, None)]) {
        MetaChange::Unchanged(flag) => assert!(!flag),
        MetaChange::Write(_) => panic!("a stale run must not write"),
    }
}

#[test]
fn a_repeated_pending_mark_answers_without_writing() {
    let m = written(mark_tag_suggestions_pending(meta("s1", "Atlas"), "h".to_string(), 1));
    match mark_tag_suggestions_pending(m, "h".to_string(), 1) {
        MetaChange::Unchanged(pending) => assert!(pending),
        MetaChange::Write(_) => panic!("same run must not write"),
    }
}

#[test]
fn auto_accept_skips_import_tags_and_keeps_weaker_suggestions() {
    let m = written(mark_tag_suggestions_pending(meta("s1", "Atlas"), "hash-1".to_string(), 1));
    let t = Some(0.75);
    let m = written(complete_tag_suggestions(
        m,
        "hash-1",
        1,
        vec![
            scored("project/atlas", 0.9, t),
            scored("customer/acme", 0.6, t),
            scored("Imported", 0.95, t),
            scored("project/import-review", 0.6, t),
        ],
    ));
    assert_eq!(m.tags, vec!["project/atlas"]);
    let items = &m.tag_suggestions.as_ref().unwrap().items;
    assert_eq!(names(items), vec!["customer/acme"]);
    assert_eq!(items[0].confidence_bits, 0.6f32.to_bits());
    assert!(!is_tag_automation_candidate("Imported"));
    assert!(is_tag_automation_candidate("project/atlas"));
}

#[test]
fn accepting_an_unknown_suggestion_changes_nothing() {
    match accept_tag_suggestion(meta("s1", "Atlas"), "nope".to_string()) {
        MetaChange::Unchanged(flag) => assert!(!flag),
        MetaChange::Write(_) => panic!("nothing to accept"),
    }
}

#[test]
fn a_patch_replaces_only_given_fields_and_new_tags_drop_their_suggestions() {
    let m = written(mark_tag_suggestions_pending(meta("s1", "Atlas"), "h".to_string(), 1));
    let m = written(complete_tag_suggestions(m, "h", 1, vec![scored("a", 0.5, None), scored("b", 0.5, None)]));
    let patch = SessionMetaPatch {
        title: Some("Renamed".to_string()),
        tags: Some(vec!["a".to_string()]),
        ..Default::default()
    };
    let m = apply_meta_patch(m, patch);
    assert_eq!(m.title, "Renamed");
    assert_eq!(m.created_at, "2026-01-01T00:00:00Z");
    assert_eq!(m.tags, vec!["a"]);
    assert_eq!(names(&m.tag_suggestions.as_ref().unwrap().items), vec!["b"]);
}

#[test]
fn recording_marks_start_once_and_end_every_time() {
    let m = mark_recording_started(meta("s1", "T"), "t1".to_string()).expect("first start writes");
    assert_eq!(m.started_at.as_deref(), Some("t1"));
    assert!(mark_recording_started(m.clone_for_test(), "t2".to_string()).is_none());
    let m = mark_recording_ended(m, "e1".to_string());
    let m = mark_recording_ended(m, "e2".to_string());
    assert_eq!(m.ended_at.as_deref(), Some("e2"));
}

trait CloneForTest {
    fn clone_for_test(&self) -> Self;
}

impl CloneForTest for SessionMeta {
    fn clone_for_test(&self) -> Self {
        SessionMeta {
            id: self.id.clone(),
            title: self.title.clone(),
            started_at: self.started_at.clone(),
            ended_at: self.ended_at.clone(),
            created_at: self.created_at.clone(),
            tags: self.tags.clone(),
            tag_suggestions: None,
            tracking_id: self.tracking_id.clone(),
            folder: self.folder.clone(),
            author: self.author.clone(),
            skill_json: self.skill_json.clone(),
            extra_json: self.extra_json.clone(),
            event_tracking_id: self.event_tracking_id.clone(),
        }
    }
}

fn doc() -> EnhancedDoc {
    EnhancedDoc {
        id: "d1".to_string(),
        session_id: "s1".to_string(),
        kind: "summary".to_string(),
        title: "Review".to_string(),
        template_id: "t".to_string(),
        sort_order: 0,
        markdown: "# body".to_string(),
    }
}

fn kinds() -> Vec<String> {
    vec!["summary".to_string(), "notes".to_string()]
}

#[test]
fn enhanced_patch_guards_title_then_body_then_kind() {
    let stale_title = EnhancedDocPatch { expected_title: Some("Old".to_string()), ..Default::default() };
    match apply_enhanced_patch(doc(), stale_title, &kinds()) {
        Err(StoreError::Conflict(m)) => {
            assert_eq!(m, "enhanced doc d1 title changed (expected \"Old\", found \"Review\")")
        }
        other => panic!("unexpected: {other:?}"),
    }
    let stale_body = EnhancedDocPatch { expected_markdown: Some("x".to_string()), ..Default::default() };
    match apply_enhanced_patch(doc(), stale_body, &kinds()) {
        Err(StoreError::Conflict(m)) => assert_eq!(m, "enhanced doc d1 body changed since it was read"),
        other => panic!("unexpected: {other:?}"),
    }
    let bad_kind = EnhancedDocPatch { kind: Some("essay".to_string()), ..Default::default() };
    match apply_enhanced_patch(doc(), bad_kind, &kinds()) {
        Err(StoreError::Serialize(m)) => assert_eq!(
            m,
            "invalid enhanced doc kind \"essay\" (expected one of [\"summary\", \"notes\"])"
        ),
        other => panic!("unexpected: {other:?}"),
    }
    assert!(validate_kind("notes", &kinds()).is_ok());
}

#[test]
fn enhanced_patch_applies_given_fields() {
    let patch = EnhancedDocPatch {
        title: Some("New".to_string()),
        markdown: Some("# new".to_string()),
        expected_title: Some("Review".to_string()),
        expected_markdown: Some("# body".to_string()),
        ..Default::default()
    };
    let d = apply_enhanced_patch(doc(), patch, &kinds()).unwrap();
    assert_eq!(d.title, "New");
    assert_eq!(d.markdown, "# new");
    assert_eq!(d.kind, "summary");
    assert_eq!(d.template_id, "t");
}

#[test]
fn people_match_case_insensitively_or_get_a_fresh_id() {
    let people = vec![PersonItem { id: "ana".to_string(), name: "Ana".to_string() }];
    match ensure_person_plan(&people, "  ANA ") {
        Ok(EnsuredPerson::Existing(p)) => assert_eq!(p.id, "ana"),
        other => panic!("unexpected: {other:?}"),
    }
    match ensure_person_plan(&people, "Bo Li") {
        Ok(EnsuredPerson::Created(p)) => {
            assert_eq!(p.name, "Bo Li");
            assert_eq!(p.id, "bo_li");
        }
        other => panic!("unexpected: {other:?}"),
    }
    match ensure_person_plan(&people, "   ") {
        Err(StoreError::Io(m)) => assert_eq!(m, "person name cannot be empty"),
        other => panic!("unexpected: {other:?}"),
    }
}

#[test]
fn tags_are_registered_once() {
    let tags = vec![TagItem { id: "work".to_string(), name: "Work".to_string() }];
    match ensure_tag_plan(&tags, Some("work".to_string())) {
        Ok(EnsuredTag::Existing(t)) => assert_eq!(t.name, "Work"),
        other => panic!("unexpected: {other:?}"),
    }
    match ensure_tag_plan(&tags, Some("home".to_string())) {
        Ok(EnsuredTag::Created(t)) => assert_eq!((t.id.as_str(), t.name.as_str()), ("home", "home")),
        other => panic!("unexpected: {other:?}"),
    }
    match ensure_tag_plan(&tags, None) {
        Err(StoreError::Io(m)) => assert_eq!(m, "tag name cannot be empty"),
        other => panic!("unexpected: {other:?}"),
    }
}

#[test]
fn migration_source_checks() {
    assert!(check_migration_source(FileRead::Content("o".to_string()), "o", false).is_ok());
    match check_migration_source(FileRead::Content("x".to_string()), "o", true) {
        Err(StoreError::Conflict(m)) => assert_eq!(m, "legacy summary changed during migration"),
        other => panic!("unexpected: {other:?}"),
    }
    assert!(check_migration_source(FileRead::Missing("gone".to_string()), "o", true).is_ok());
    match check_migration_source(FileRead::Missing("gone".to_string()), "o", false) {
        Err(StoreError::Io(m)) => assert_eq!(m, "gone"),
        other => panic!("unexpected: {other:?}"),
    }
    match task_sync_error(&StoreError::Io("disk".to_string())) {
        StoreError::Io(m) => {
            assert_eq!(m, "Summary saved but task synchronization failed; retry to finish: I/O error: disk")
        }
        other => panic!("unexpected: {other:?}"),
    }
}
