use vault_write::enhanced::EnhancedDoc;
use vault_write::index::{
    apply_map_value, apply_transcript_summary, has_transcript_words, EmptinessCheck, IndexEntity,
    TranscriptSummary, VaultIndex,
};
use vault_write::keyed::Keyed;
use vault_write::meta::SessionMeta;
use vault_write::people::PersonItem;
use vault_write::tags::TagItem;

fn meta(id: &str, title: &str, created_at: &str) -> SessionMeta {
    SessionMeta {
        id: id.to_string(),
        title: title.to_string(),
        started_at: None,
        ended_at: None,
        created_at: created_at.to_string(),
        tags: vec![],
        tag_suggestions: None,
        tracking_id: None,
        folder: None,
        author: None,
        skill_json: None,
        extra_json: "{}".to_string(),
        event_tracking_id: None,
    }
}

fn doc(session_id: &str, id: &str, sort_order: i32, kind: &str) -> EnhancedDoc {
    EnhancedDoc {
        id: id.to_string(),
        session_id: session_id.to_string(),
        kind: kind.to_string(),
        title: "Customer review".to_string(),
        template_id: "template-1".to_string(),
        sort_order,
        markdown: "# Review".to_string(),
    }
}

fn summary(ids: &[&str], words: u64) -> TranscriptSummary {
    TranscriptSummary {
        transcript_ids: ids.iter().map(|s| s.to_string()).collect(),
        has_words: words > 0,
        word_count: words,
        content_hash: 7,
    }
}

#[test]
fn upsert_meta_keeps_the_note_and_session_get_returns_both() {
    let mut index = VaultIndex::new();
    index.upsert_meta(meta("s1", "Planning", "2026-01-01T00:00:00Z"));
    index.set_note("s1", Some("# notes".to_string()));
    index.upsert_meta(meta("s1", "Renamed", "2026-01-01T00:00:00Z"));
    let record = index.session_get("s1").unwrap();
    assert_eq!(record.meta.title, "Renamed");
    assert_eq!(record.note_markdown.as_deref(), Some("# notes"));
    assert!(index.session_get("ghost").is_none());
    assert_eq!(index.session_count(), 1);
}

#[test]
fn a_note_for_an_unknown_session_leaves_it_a_ghost() {
    let mut index = VaultIndex::new();
    index.set_note("ghost", Some("x".to_string()));
    assert!(index.session_get("ghost").is_none());
    assert_eq!(index.session_count(), 0);
}

#[test]
fn session_list_orders_by_created_at_then_id() {
    let mut index = VaultIndex::new();
    index.upsert_meta(meta("b", "B", "2026-01-02T00:00:00Z"));
    index.upsert_meta(meta("c", "C", "2026-01-01T00:00:00Z"));
    index.upsert_meta(meta("a", "A", "2026-01-02T00:00:00Z"));
    index.set_transcript_summary("a", summary(&["t1"], 3));
    let list = index.session_list();
    let ids: Vec<&str> = list.iter().map(|e| e.meta.id.as_str()).collect();
    assert_eq!(ids, vec!["c", "a", "b"]);
    assert!(list[1].has_transcript_words);
    assert!(!list[0].has_transcript_words);
    let headers = index.session_list_headers();
    let ids: Vec<&str> = headers.iter().map(|h| h.id.as_str()).collect();
    assert_eq!(ids, vec!["c", "a", "b"]);
    assert_eq!(headers[1].title, "A");
}

#[test]
fn session_ids_are_newest_first_with_ties_by_id() {
    let mut index = VaultIndex::new();
    index.upsert_meta(meta("b", "B", "2026-01-02T00:00:00Z"));
    index.upsert_meta(meta("c", "C", "2026-01-01T00:00:00Z"));
    index.upsert_meta(meta("a", "A", "2026-01-02T00:00:00Z"));
    assert_eq!(index.session_ids(), vec!["a", "b", "c"]);
}

#[test]
fn docs_are_upserted_removed_and_listed_in_sort_order() {
    let mut index = VaultIndex::new();
    index.upsert_doc(doc("s1", "d2", 2, "template_output"));
    index.upsert_doc(doc("s1", "d1", 1, "summary"));
    let mut replaced = doc("s1", "d2", 0, "template_output");
    replaced.title = "New".to_string();
    index.upsert_doc(replaced);
    let docs = index.session_enhanced_docs("s1");
    let ids: Vec<&str> = docs.iter().map(|d| d.id.as_str()).collect();
    assert_eq!(ids, vec!["d2", "d1"]);
    assert_eq!(docs[0].title, "New");
    assert_eq!(index.enhanced_doc_get("d1").unwrap().session_id, "s1");
    assert!(index.enhanced_doc_get("nope").is_none());
    index.remove_doc("s1", "d2");
    index.remove_doc("s1", "d1");
    assert!(index.session_enhanced_docs("s1").is_empty());
    assert!(index.docs.is_empty(), "an emptied doc list leaves the map");
}

#[test]
fn transcript_summaries_resolve_transcript_ids() {
    let mut index = VaultIndex::new();
    index.set_transcript_summary("s1", summary(&["t1", "t2"], 0));
    assert_eq!(index.transcript_session_id("t2").as_deref(), Some("s1"));
    assert!(index.transcript_session_id("t3").is_none());
    assert!(!has_transcript_words(&index, "s1"));
    index.set_transcript_summary("s1", summary(&[], 0));
    assert!(index.transcripts.is_empty());
}

#[test]
fn remove_session_reports_only_the_entities_that_held_something() {
    let mut index = VaultIndex::new();
    index.upsert_meta(meta("s1", "A", "2026-01-01T00:00:00Z"));
    index.set_transcript_summary("s1", summary(&["t1"], 1));
    let changes = index.remove_session("s1");
    let entities: Vec<IndexEntity> = changes.iter().map(|c| c.0).collect();
    assert_eq!(entities, vec![IndexEntity::Sessions, IndexEntity::Transcripts]);
    assert!(changes.iter().all(|c| c.1 == "s1"));
    assert!(index.remove_session("s1").is_empty());
}

#[test]
fn apply_map_value_reports_changes_and_settles() {
    let mut map: Vec<Keyed<Vec<String>>> = Vec::new();
    assert!(!apply_map_value(&mut map, "k", vec![]));
    assert!(apply_map_value(&mut map, "k", vec!["a".to_string()]));
    assert!(!apply_map_value(&mut map, "k", vec!["a".to_string()]));
    assert!(apply_map_value(&mut map, "k", vec!["b".to_string()]));
    assert!(apply_map_value(&mut map, "k", vec![]));
    assert!(map.is_empty());
}

#[test]
fn apply_transcript_summary_flips_on_a_same_shape_hash_change() {
    let mut map: Vec<Keyed<TranscriptSummary>> = Vec::new();
    assert!(apply_transcript_summary(&mut map, "s1", summary(&["t1"], 1)));
    assert!(!apply_transcript_summary(&mut map, "s1", summary(&["t1"], 1)));
    let mut edited = summary(&["t1"], 1);
    edited.content_hash = 8;
    assert!(apply_transcript_summary(&mut map, "s1", edited));
    assert!(apply_transcript_summary(&mut map, "s1", summary(&[], 0)));
    assert!(!apply_transcript_summary(&mut map, "s1", summary(&[], 0)));
}

#[test]
fn emptiness_is_decided_from_the_index_when_it_can_be() {
    let mut index = VaultIndex::new();
    assert_eq!(index.session_emptiness("nope"), EmptinessCheck::Empty);
    index.upsert_meta(meta("s1", "  ", "2026-01-01T00:00:00Z"));
    index.set_note("s1", Some(" &nbsp; ".to_string()));
    assert_eq!(index.session_emptiness("s1"), EmptinessCheck::NeedsProbe);
    index.set_note("s1", Some("text".to_string()));
    assert_eq!(index.session_emptiness("s1"), EmptinessCheck::NotEmpty);
    index.set_note("s1", None);
    index.set_transcript_summary("s1", summary(&["t1"], 0));
    assert_eq!(index.session_emptiness("s1"), EmptinessCheck::NotEmpty);
    index.upsert_meta(meta("s2", "Titled", "2026-01-01T00:00:00Z"));
    assert_eq!(index.session_emptiness("s2"), EmptinessCheck::NotEmpty);
}

#[test]
fn find_by_tracking_id_takes_the_earliest_carrier() {
    let mut index = VaultIndex::new();
    let mut a = meta("a", "A", "2026-01-03T00:00:00Z");
    a.tracking_id = Some("t".to_string());
    let mut b = meta("b", "B", "2026-01-02T00:00:00Z");
    b.event_tracking_id = Some("t".to_string());
    index.upsert_meta(a);
    index.upsert_meta(b);
    index.upsert_meta(meta("c", "C", "2026-01-01T00:00:00Z"));
    assert_eq!(index.session_find_by_tracking_id("t").unwrap().id, "b");
    assert!(index.session_find_by_tracking_id("u").is_none());
}

#[test]
fn replacing_people_reports_the_changed_ids_sorted() {
    let mut index = VaultIndex::new();
    let first = index.replace_people(vec![
        PersonItem { id: "b".to_string(), name: "B".to_string() },
        PersonItem { id: "a".to_string(), name: "A".to_string() },
    ]);
    assert_eq!(first, vec!["a", "b"]);
    let second = index.replace_people(vec![
        PersonItem { id: "a".to_string(), name: "A".to_string() },
        PersonItem { id: "c".to_string(), name: "C".to_string() },
    ]);
    assert_eq!(second, vec!["b", "c"]);
    assert!(index
        .replace_people(vec![
            PersonItem { id: "a".to_string(), name: "A".to_string() },
            PersonItem { id: "c".to_string(), name: "C".to_string() },
        ])
        .is_empty());
    let tags = index.replace_tags(vec![TagItem { id: "t".to_string(), name: "Work".to_string() }]);
    assert_eq!(tags, vec!["t"]);
}
