use vault_write::error::StoreError;
use vault_write::tasks::{
    classify_task_source, list_source_tasks, move_tasks_between, remove_source_tasks,
    replace_source_tasks, TaskFile, TaskInput, TaskItem, TaskScope, TaskSource,
};

fn task(id: &str, source_id: &str, order: i32, text: &str) -> TaskItem {
    TaskItem {
        id: id.to_string(),
        source_type: "session_raw_note".to_string(),
        source_id: source_id.to_string(),
        source_order: order,
        status: "todo".to_string(),
        text: text.to_string(),
        body_json: "{}".to_string(),
        due_at: String::new(),
        assignee: "ana".to_string(),
        created_at: "2026-01-01T00:00:00Z".to_string(),
        updated_at: "2026-01-01T00:00:00Z".to_string(),
    }
}

fn input(id: &str, order: i32, text: &str) -> TaskInput {
    TaskInput {
        id: id.to_string(),
        source_order: order,
        status: "todo".to_string(),
        text: text.to_string(),
        body_json: "{}".to_string(),
        due_at: String::new(),
    }
}

#[test]
fn replaced_tasks_read_back_and_other_sources_stay() {
    let existing = vec![task("t1", "s1", 0, "old"), task("o1", "s2", 0, "other")];
    let next = replace_source_tasks(
        existing,
        "session_raw_note",
        "s1",
        vec![input("t2", 1, "new"), input("t1", 0, "old")],
        "2026-02-02T00:00:00Z",
    )
    .expect("the list changes");
    let ids: Vec<&str> = next.iter().map(|t| t.id.as_str()).collect();
    assert_eq!(ids, vec!["o1", "t2", "t1"]);
    let t1 = next.iter().find(|t| t.id == "t1").unwrap();
    assert_eq!(t1.updated_at, "2026-01-01T00:00:00Z");
    assert_eq!(t1.assignee, "ana");
    let t2 = next.iter().find(|t| t.id == "t2").unwrap();
    assert_eq!(t2.created_at, "2026-02-02T00:00:00Z");
    assert_eq!(t2.assignee, "");

    let listed = list_source_tasks(next, "session_raw_note", "s1");
    let ids: Vec<&str> = listed.iter().map(|t| t.id.as_str()).collect();
    assert_eq!(ids, vec!["t1", "t2"]);
}

#[test]
fn replacing_with_the_same_tasks_writes_nothing() {
    let existing = vec![task("t1", "s1", 0, "same")];
    assert!(replace_source_tasks(existing, "session_raw_note", "s1", vec![input("t1", 0, "same")], "later").is_none());
}

#[test]
fn removing_twice_changes_nothing_the_second_time() {
    let existing = vec![task("t1", "s1", 0, "a"), task("t2", "s1", 1, "b"), task("t1", "s2", 0, "c")];
    let ids = vec!["t1".to_string()];
    let once = remove_source_tasks(existing, "session_raw_note", "s1", &ids).expect("t1 of s1 goes");
    assert_eq!(once.len(), 2);
    assert!(once.iter().any(|t| t.id == "t1" && t.source_id == "s2"));
    assert!(remove_source_tasks(once, "session_raw_note", "s1", &ids).is_none());
}

#[test]
fn moved_tasks_land_in_the_destination_in_id_order() {
    let mut files = vec![
        TaskFile { scope: TaskScope::Vault, tasks: vec![], dirty: false },
        TaskFile {
            scope: TaskScope::Session("s1".to_string()),
            tasks: vec![task("a", "s1", 0, "A"), task("b", "s1", 1, "B")],
            dirty: false,
        },
    ];
    let ids = vec!["b".to_string(), "missing".to_string(), "a".to_string()];
    move_tasks_between(&mut files, &ids, "vault", "root", 10, "now");
    let moved: Vec<(&str, i32)> = files[0].tasks.iter().map(|t| (t.id.as_str(), t.source_order)).collect();
    assert_eq!(moved, vec![("b", 10), ("a", 12)]);
    assert!(files[0].dirty && files[1].dirty);
    assert!(files[1].tasks.is_empty());
    assert_eq!(files[0].tasks[0].source_type, "vault");
    assert_eq!(files[0].tasks[0].updated_at, "now");
}

#[test]
fn task_sources_classify_by_type() {
    assert!(matches!(
        classify_task_source("session_raw_note", "s1"),
        Ok(TaskSource::Scope(TaskScope::Session(id))) if id == "s1"
    ));
    assert!(matches!(
        classify_task_source("enhanced_note", "d1"),
        Ok(TaskSource::EnhancedDoc(id)) if id == "d1"
    ));
    assert!(matches!(classify_task_source("anything", "x"), Ok(TaskSource::Scope(TaskScope::Vault))));
    assert!(matches!(classify_task_source("session_raw_note", "../x"), Err(StoreError::Io(_))));
    assert_eq!(TaskScope::Vault.index_key(), "");
}
