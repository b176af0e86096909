//! Tasks (`tasks.json`): which file a source's tasks live in, and the list
//! edits behind replace, remove and move.

use vstd::prelude::*;
use vstd::string::*;

use crate::error::StoreError;
use crate::order::{SortKey, int_str_le, lemma_int_str_le_total, lemma_int_str_le_transitive, sort_records, sorted_seq};
use crate::paths::{is_safe_segment, segment_error_message, validate_doc_id, validate_session_id};
use crate::record::{DeepCopy, Same, same_vec};
use crate::strings::{str_eq, str_lt};

verus! {

/// One task. `body_json` is the task body as JSON text.
#[derive(Debug)]
pub struct TaskItem {
    pub id: String,
    pub source_type: String,
    pub source_id: String,
    pub source_order: i32,
    pub status: String,
    pub text: String,
    pub body_json: String,
    pub due_at: String,
    pub assignee: String,
    pub created_at: String,
    pub updated_at: String,
}

pub struct TaskItemView {
    pub id: Seq<char>,
    pub source_type: Seq<char>,
    pub source_id: Seq<char>,
    pub source_order: i32,
    pub status: Seq<char>,
    pub text: Seq<char>,
    pub body_json: Seq<char>,
    pub due_at: Seq<char>,
    pub assignee: Seq<char>,
    pub created_at: Seq<char>,
    pub updated_at: Seq<char>,
}

impl DeepView for TaskItem {
    type V = TaskItemView;

    open spec fn deep_view(&self) -> TaskItemView {
        TaskItemView {
            id: self.id@,
            source_type: self.source_type@,
            source_id: self.source_id@,
            source_order: self.source_order,
            status: self.status@,
            text: self.text@,
            body_json: self.body_json@,
            due_at: self.due_at@,
            assignee: self.assignee@,
            created_at: self.created_at@,
            updated_at: self.updated_at@,
        }
    }
}

impl Same for TaskItem {
    fn same(&self, other: &Self) -> (r: bool) {
        self.id == other.id && self.source_type == other.source_type && self.source_id
            == other.source_id && self.source_order == other.source_order && self.status
            == other.status && self.text == other.text && self.body_json == other.body_json
            && self.due_at == other.due_at && self.assignee == other.assignee && self.created_at
            == other.created_at && self.updated_at == other.updated_at
    }
}

impl Clone for TaskItem {
    fn clone(&self) -> (r: Self)
        ensures
            r == *self,
    {
        TaskItem {
            id: self.id.clone(),
            source_type: self.source_type.clone(),
            source_id: self.source_id.clone(),
            source_order: self.source_order,
            status: self.status.clone(),
            text: self.text.clone(),
            body_json: self.body_json.clone(),
            due_at: self.due_at.clone(),
            assignee: self.assignee.clone(),
            created_at: self.created_at.clone(),
            updated_at: self.updated_at.clone(),
        }
    }
}

/// Task list order: `source_order`, then id.
impl SortKey for TaskItem {
    open spec fn spec_le(&self, other: &Self) -> bool {
        int_str_le(self.source_order as int, self.id@, other.source_order as int, other.id@)
    }

    proof fn lemma_le_total(a: &Self, b: &Self) {
        lemma_int_str_le_total(a.source_order as int, a.id@, b.source_order as int, b.id@);
    }

    proof fn lemma_le_transitive(a: &Self, b: &Self, c: &Self) {
        lemma_int_str_le_transitive(
            a.source_order as int,
            a.id@,
            b.source_order as int,
            b.id@,
            c.source_order as int,
            c.id@,
        );
    }

    fn le(&self, other: &Self) -> (r: bool) {
        self.source_order < other.source_order || (self.source_order == other.source_order && (
        str_eq(self.id.as_str(), other.id.as_str()) || str_lt(self.id.as_str(), other.id.as_str())))
    }
}

/// What the frontend sends on a write. `body_json` is JSON text.
#[derive(Debug)]
pub struct TaskInput {
    pub id: String,
    pub source_order: i32,
    pub status: String,
    pub text: String,
    pub body_json: String,
    pub due_at: String,
}

pub struct TaskInputView {
    pub id: Seq<char>,
    pub source_order: i32,
    pub status: Seq<char>,
    pub text: Seq<char>,
    pub body_json: Seq<char>,
    pub due_at: Seq<char>,
}

impl DeepView for TaskInput {
    type V = TaskInputView;

    open spec fn deep_view(&self) -> TaskInputView {
        TaskInputView {
            id: self.id@,
            source_order: self.source_order,
            status: self.status@,
            text: self.text@,
            body_json: self.body_json@,
            due_at: self.due_at@,
        }
    }
}

/// Which `tasks.json` a source's tasks live in.
#[derive(Debug)]
pub enum TaskScope {
    Session(String),
    Vault,
}

/// The key of the vault-root tasks file in the index (sessions can never claim
/// it: folder names are non-empty path segments).
pub open spec fn vault_tasks_key() -> Seq<char> {
    Seq::<char>::empty()
}

impl TaskScope {
    pub open spec fn spec_index_key(&self) -> Seq<char> {
        match self {
            TaskScope::Session(id) => id@,
            TaskScope::Vault => vault_tasks_key(),
        }
    }

    /// This scope's key in the in-memory index's tasks map.
    pub fn index_key(&self) -> (r: String)
        ensures
            r@ == self.spec_index_key(),
    {
        match self {
            TaskScope::Session(id) => id.clone(),
            TaskScope::Vault => String::new(),
        }
    }

    pub fn same_scope(&self, other: &TaskScope) -> (r: bool)
        ensures
            r == (self.spec_index_key() == other.spec_index_key() && (*self is Vault) == (*other is Vault)),
    {
        match (self, other) {
            (TaskScope::Session(a), TaskScope::Session(b)) => *a == *b,
            (TaskScope::Vault, TaskScope::Vault) => true,
            _ => false,
        }
    }
}

/// Where a task source points before any lookup: a session directly, a doc id
/// that must be resolved to its session, or the vault-root file.
#[derive(Debug)]
pub enum TaskSource {
    Scope(TaskScope),
    EnhancedDoc(String),
}

/// `session_raw_note` carries a session id, `enhanced_note` a doc id; any other
/// source type maps to the vault-root file. Ids must be safe path segments.
pub fn classify_task_source(source_type: &str, source_id: &str) -> (r: Result<TaskSource, StoreError>)
    ensures
        source_type@ == "session_raw_note"@ ==> (if is_safe_segment(source_id@) {
            r matches Ok(TaskSource::Scope(TaskScope::Session(id))) && id@ == source_id@
        } else {
            r matches Err(StoreError::Io(m)) && m@ == segment_error_message("session id"@, source_id@)
        }),
        source_type@ == "enhanced_note"@ ==> (if is_safe_segment(source_id@) {
            r matches Ok(TaskSource::EnhancedDoc(id)) && id@ == source_id@
        } else {
            r matches Err(StoreError::Io(m)) && m@ == segment_error_message("enhanced doc id"@, source_id@)
        }),
        source_type@ != "session_raw_note"@ && source_type@ != "enhanced_note"@ ==> r matches Ok(
            TaskSource::Scope(TaskScope::Vault),
        ),
{
    proof {
        reveal_strlit("session_raw_note");
        reveal_strlit("enhanced_note");
        assert("session_raw_note"@.len() != "enhanced_note"@.len());
    }
    if str_eq(source_type, "session_raw_note") {
        match validate_session_id(source_id) {
            Ok(()) => Ok(TaskSource::Scope(TaskScope::Session(crate::strings::to_owned_string(source_id)))),
            Err(e) => Err(e),
        }
    } else if str_eq(source_type, "enhanced_note") {
        match validate_doc_id(source_id) {
            Ok(()) => Ok(TaskSource::EnhancedDoc(crate::strings::to_owned_string(source_id))),
            Err(e) => Err(e),
        }
    } else {
        Ok(TaskSource::Scope(TaskScope::Vault))
    }
}

pub open spec fn from_source(t: TaskItemView, source_type: Seq<char>, source_id: Seq<char>) -> bool {
    t.source_type == source_type && t.source_id == source_id
}

/// A source's tasks, ordered by `source_order` then id.
pub fn list_source_tasks(tasks: Vec<TaskItem>, source_type: &str, source_id: &str) -> (r: Vec<TaskItem>)
    ensures
        sorted_seq(r@),
        r@.to_multiset() == tasks@.filter(|t: TaskItem| t.source_type@ == source_type@ && t.source_id@ == source_id@).to_multiset(),
{
    let ghost pred = |t: TaskItem| t.source_type@ == source_type@ && t.source_id@ == source_id@;
    let ghost all = tasks@;
    let mut rest = tasks;
    let mut kept: Vec<TaskItem> = Vec::new();
    while rest.len() > 0
        invariant
            rest@.len() <= all.len(),
            rest@ == all.subrange(all.len() - rest@.len(), all.len() as int),
            kept@ == all.subrange(0, all.len() - rest@.len()).filter(pred),
            pred == (|t: TaskItem| t.source_type@ == source_type@ && t.source_id@ == source_id@),
        decreases rest.len(),
    {
        let ghost done = all.len() - rest@.len();
        let x = rest.remove(0);
        proof {
            assert(all.subrange(0, done + 1).drop_last() =~= all.subrange(0, done));
            reveal_with_fuel(Seq::<_>::filter, 1);
        }
        if str_eq(x.source_type.as_str(), source_type) && str_eq(x.source_id.as_str(), source_id) {
            kept.push(x);
        }
        proof {
            assert(kept@ =~= all.subrange(0, done + 1).filter(pred));
            assert(rest@ =~= all.subrange(done + 1, all.len() as int));
        }
    }
    proof {
        assert(all.subrange(0, all.len() as int) =~= all);
    }
    sort_records(kept)
}

/// The last task in `existing` with this id (a later duplicate wins, as when
/// building an id map from the list).
pub open spec fn last_with_id(existing: Seq<TaskItemView>, id: Seq<char>) -> Option<TaskItemView>
    decreases existing.len(),
{
    if existing.len() == 0 {
        None
    } else if existing.last().id == id {
        Some(existing.last())
    } else {
        last_with_id(existing.drop_last(), id)
    }
}

/// Same content (everything but timestamps and assignee).
pub open spec fn same_content(a: TaskItemView, b: TaskItemView) -> bool {
    a.source_type == b.source_type && a.source_id == b.source_id && a.source_order
        == b.source_order && a.status == b.status && a.text == b.text && a.body_json
        == b.body_json && a.due_at == b.due_at
}

/// The stored task for an input: source from the call, timestamps and assignee
/// from an existing task with the same id (`now` for new ones); an unchanged
/// task keeps its `updated_at`.
pub open spec fn task_from_input(
    input: TaskInputView,
    source_type: Seq<char>,
    source_id: Seq<char>,
    prior: Option<TaskItemView>,
    now: Seq<char>,
) -> TaskItemView {
    let fresh = TaskItemView {
        id: input.id,
        source_type,
        source_id,
        source_order: input.source_order,
        status: input.status,
        text: input.text,
        body_json: input.body_json,
        due_at: input.due_at,
        assignee: match prior {
            Some(p) => p.assignee,
            None => Seq::<char>::empty(),
        },
        created_at: match prior {
            Some(p) => p.created_at,
            None => now,
        },
        updated_at: now,
    };
    match prior {
        Some(p) => if same_content(p, fresh) {
            TaskItemView { updated_at: p.updated_at, ..fresh }
        } else {
            fresh
        },
        None => fresh,
    }
}

/// The file's task list after replacing one source's tasks: tasks of other
/// sources stay (minus any whose id an input takes over), then the inputs in order.
pub open spec fn replaced_tasks(
    existing: Seq<TaskItemView>,
    source_type: Seq<char>,
    source_id: Seq<char>,
    inputs: Seq<TaskInputView>,
    now: Seq<char>,
) -> Seq<TaskItemView> {
    let input_ids = inputs.map_values(|i: TaskInputView| i.id);
    existing.filter(
        |t: TaskItemView| !from_source(t, source_type, source_id) && !input_ids.contains(t.id),
    ) + inputs.map_values(
        |i: TaskInputView| task_from_input(i, source_type, source_id, last_with_id(existing, i.id), now),
    )
}

fn last_task_with_id(existing: &Vec<TaskItem>, id: &str) -> (r: Option<usize>)
    ensures
        r matches Some(i) ==> i < existing@.len() && last_with_id(existing.deep_view(), id@) == Some(existing.deep_view()[i as int]),
        r is None ==> last_with_id(existing.deep_view(), id@) is None,
{
    let mut i = existing.len();
    let ghost all = existing.deep_view();
    assert(all.subrange(0, i as int) =~= all);
    while i > 0
        invariant
            i <= existing@.len(),
            all == existing.deep_view(),
            last_with_id(all, id@) == last_with_id(all.subrange(0, i as int), id@),
        decreases i,
    {
        let ghost sub = all.subrange(0, i as int);
        proof {
            assert(sub.last() == all[i - 1]);
            assert(all[i - 1] == existing@[i - 1].deep_view());
            assert(sub.drop_last() =~= all.subrange(0, i - 1));
        }
        if str_eq(existing[i - 1].id.as_str(), id) {
            return Some(i - 1);
        }
        i = i - 1;
    }
    proof {
        assert(all.subrange(0, 0) =~= Seq::<TaskItemView>::empty());
    }
    None
}

fn input_ids_contain(inputs: &Vec<TaskInput>, id: &str) -> (r: bool)
    ensures
        r == inputs.deep_view().map_values(|i: TaskInputView| i.id).contains(id@),
{
    let ghost ids = inputs.deep_view().map_values(|i: TaskInputView| i.id);
    let mut k: usize = 0;
    while k < inputs.len()
        invariant
            k <= inputs.len(),
            ids == inputs.deep_view().map_values(|i: TaskInputView| i.id),
            forall|j: int| 0 <= j < k ==> ids[j] != id@,
        decreases inputs.len() - k,
    {
        assert(ids[k as int] == inputs@[k as int].id@);
        if str_eq(inputs[k].id.as_str(), id) {
            return true;
        }
        k = k + 1;
    }
    false
}

/// The stored task for one input (see `task_from_input`).
fn task_for_input(existing: &Vec<TaskItem>, input: TaskInput, source_type: &str, source_id: &str, now: &str) -> (r: TaskItem)
    ensures
        r.deep_view() == task_from_input(input.deep_view(), source_type@, source_id@, last_with_id(existing.deep_view(), input.id@), now@),
{
    let ghost iv = input.deep_view();
    let ghost ev = existing.deep_view();
    let prior = last_task_with_id(existing, input.id.as_str());
    let TaskInput { id, source_order, status, text, body_json, due_at } = input;
    let (assignee, created_at) = match prior {
        Some(p) => (existing[p].assignee.clone(), existing[p].created_at.clone()),
        None => (String::new(), crate::strings::to_owned_string(now)),
    };
    let mut item = TaskItem {
        id,
        source_type: crate::strings::to_owned_string(source_type),
        source_id: crate::strings::to_owned_string(source_id),
        source_order,
        status,
        text,
        body_json,
        due_at,
        assignee,
        created_at,
        updated_at: crate::strings::to_owned_string(now),
    };
    if let Some(p) = prior {
        proof {
            assert(ev[p as int] == existing@[p as int].deep_view());
        }
        let unchanged = existing[p].source_type == item.source_type && existing[p].source_id
            == item.source_id && existing[p].source_order == item.source_order
            && existing[p].status == item.status && existing[p].text == item.text
            && existing[p].body_json == item.body_json && existing[p].due_at == item.due_at;
        if unchanged {
            item.updated_at = existing[p].updated_at.clone();
        }
    }
    proof {
        let expected = task_from_input(iv, source_type@, source_id@, last_with_id(ev, iv.id), now@);
        assert(item.deep_view() =~= expected);
    }
    item
}

/// Tasks of other sources whose id no input takes over, in order.
fn keep_other_tasks(existing: &Vec<TaskItem>, source_type: &str, source_id: &str, inputs: &Vec<TaskInput>) -> (r: Vec<TaskItem>)
    ensures
        r.deep_view() == existing.deep_view().filter(
            |t: TaskItemView| !from_source(t, source_type@, source_id@) && !inputs.deep_view().map_values(|i: TaskInputView| i.id).contains(t.id),
        ),
{
    let ghost ev = existing.deep_view();
    let ghost input_ids = inputs.deep_view().map_values(|i: TaskInputView| i.id);
    let ghost pred = |t: TaskItemView| !from_source(t, source_type@, source_id@) && !input_ids.contains(t.id);
    let mut next: Vec<TaskItem> = Vec::new();
    let mut k: usize = 0;
    while k < existing.len()
        invariant
            k <= existing.len(),
            ev == existing.deep_view(),
            input_ids == inputs.deep_view().map_values(|i: TaskInputView| i.id),
            pred == (|t: TaskItemView| !from_source(t, source_type@, source_id@) && !input_ids.contains(t.id)),
            next.deep_view() == ev.subrange(0, k as int).filter(pred),
        decreases existing.len() - k,
    {
        proof {
            assert(ev.subrange(0, k + 1).drop_last() =~= ev.subrange(0, k as int));
            assert(ev[k as int] == existing@[k as int].deep_view());
            reveal_with_fuel(Seq::<_>::filter, 1);
        }
        let t = &existing[k];
        let keep = !(str_eq(t.source_type.as_str(), source_type) && str_eq(t.source_id.as_str(), source_id))
            && !input_ids_contain(inputs, t.id.as_str());
        if keep {
            let ghost before = next.deep_view();
            next.push(t.clone());
            proof {
                assert(next.deep_view() =~= before.push(ev[k as int]));
            }
        }
        proof {
            assert(next.deep_view() =~= ev.subrange(0, k + 1).filter(pred));
        }
        k = k + 1;
    }
    proof {
        assert(ev.subrange(0, existing.len() as int) =~= ev);
    }
    next
}

/// Appends the stored task for every input, in order.
fn append_input_tasks(next: &mut Vec<TaskItem>, existing: &Vec<TaskItem>, inputs: Vec<TaskInput>, source_type: &str, source_id: &str, now: &str)
    ensures
        final(next).deep_view() == old(next).deep_view() + inputs.deep_view().map_values(
            |i: TaskInputView| task_from_input(i, source_type@, source_id@, last_with_id(existing.deep_view(), i.id), now@),
        ),
{
    let ghost ev = existing.deep_view();
    let ghost iv = inputs.deep_view();
    let ghost kept = next.deep_view();
    let ghost mapped = iv.map_values(
        |i: TaskInputView| task_from_input(i, source_type@, source_id@, last_with_id(ev, i.id), now@),
    );
    let mut rest = inputs;
    let ghost n_inputs = iv.len();
    assert(mapped.subrange(0, 0) =~= Seq::<TaskItemView>::empty());
    assert(next.deep_view() =~= kept + mapped.subrange(0, 0));
    while rest.len() > 0
        invariant
            rest.deep_view().len() <= n_inputs,
            n_inputs == iv.len(),
            mapped.len() == n_inputs,
            ev == existing.deep_view(),
            rest.deep_view() == iv.subrange(n_inputs - rest.deep_view().len(), n_inputs as int),
            mapped == iv.map_values(
                |i: TaskInputView| task_from_input(i, source_type@, source_id@, last_with_id(ev, i.id), now@),
            ),
            next.deep_view() == kept + mapped.subrange(0, n_inputs - rest.deep_view().len()),
        decreases rest.len(),
    {
        let ghost done = n_inputs - rest.deep_view().len();
        let ghost before = rest.deep_view();
        let ghost before_raw = rest@;
        let input = rest.remove(0);
        proof {
            assert(rest.deep_view() =~= before.drop_first());
            assert(before[0] == before_raw[0].deep_view());
            assert(input.deep_view() == iv[done]);
        }
        let item = task_for_input(existing, input, source_type, source_id, now);
        let ghost before_next = next.deep_view();
        next.push(item);
        proof {
            assert(mapped[done] == item.deep_view());
            assert(next.deep_view() =~= before_next.push(item.deep_view()));
            assert(mapped.subrange(0, done + 1) =~= mapped.subrange(0, done).push(mapped[done]));
            assert(next.deep_view() =~= kept + mapped.subrange(0, done + 1));
            assert(rest.deep_view() =~= iv.subrange(done + 1, n_inputs as int));
        }
    }
    proof {
        assert(mapped.subrange(0, n_inputs as int) =~= mapped);
    }
}

/// Replaces the full task list of one source. `None` when the result equals the
/// current list, so nothing needs writing.
pub fn replace_source_tasks(
    existing: Vec<TaskItem>,
    source_type: &str,
    source_id: &str,
    inputs: Vec<TaskInput>,
    now: &str,
) -> (r: Option<Vec<TaskItem>>)
    ensures
        ({
            let next = replaced_tasks(existing.deep_view(), source_type@, source_id@, inputs.deep_view(), now@);
            if next == existing.deep_view() {
                r is None
            } else {
                r matches Some(v) && v.deep_view() == next
            }
        }),
{
    let mut next = keep_other_tasks(&existing, source_type, source_id, &inputs);
    append_input_tasks(&mut next, &existing, inputs, source_type, source_id, now);
    if same_vec(&next, &existing) {
        None
    } else {
        Some(next)
    }
}

/// The file's task list after removing the listed ids from one source; the
/// same ids under another source stay.
pub open spec fn removed_tasks(
    existing: Seq<TaskItemView>,
    source_type: Seq<char>,
    source_id: Seq<char>,
    ids: Seq<Seq<char>>,
) -> Seq<TaskItemView> {
    existing.filter(|t: TaskItemView| !(from_source(t, source_type, source_id) && ids.contains(t.id)))
}

/// Removes the listed task ids from one source. `None` when nothing changes.
pub fn remove_source_tasks(existing: Vec<TaskItem>, source_type: &str, source_id: &str, ids: &Vec<String>) -> (r: Option<Vec<TaskItem>>)
    ensures
        ({
            let next = removed_tasks(existing.deep_view(), source_type@, source_id@, ids.deep_view());
            if next == existing.deep_view() {
                r is None
            } else {
                r matches Some(v) && v.deep_view() == next
            }
        }),
{
    let ghost ev = existing.deep_view();
    let ghost idv = ids.deep_view();
    let ghost pred = |t: TaskItemView| !(from_source(t, source_type@, source_id@) && idv.contains(t.id));
    let mut next: Vec<TaskItem> = Vec::new();
    let mut k: usize = 0;
    while k < existing.len()
        invariant
            k <= existing.len(),
            ev == existing.deep_view(),
            idv == ids.deep_view(),
            pred == (|t: TaskItemView| !(from_source(t, source_type@, source_id@) && idv.contains(t.id))),
            next.deep_view() == ev.subrange(0, k as int).filter(pred),
        decreases existing.len() - k,
    {
        proof {
            assert(ev.subrange(0, k + 1).drop_last() =~= ev.subrange(0, k as int));
            assert(ev[k as int] == existing@[k as int].deep_view());
            reveal_with_fuel(Seq::<_>::filter, 1);
        }
        let t = &existing[k];
        let drop = str_eq(t.source_type.as_str(), source_type) && str_eq(t.source_id.as_str(), source_id)
            && crate::meta::vec_contains_str(ids, t.id.as_str());
        if !drop {
            let ghost before = next.deep_view();
            next.push(t.clone());
            proof {
                assert(next.deep_view() =~= before.push(ev[k as int]));
            }
        }
        proof {
            assert(next.deep_view() =~= ev.subrange(0, k + 1).filter(pred));
        }
        k = k + 1;
    }
    proof {
        assert(ev.subrange(0, existing.len() as int) =~= ev);
    }
    if same_vec(&next, &existing) {
        None
    } else {
        Some(next)
    }
}


/// One `tasks.json` loaded for a move, and whether the move changed it.
#[derive(Debug)]
pub struct TaskFile {
    pub scope: TaskScope,
    pub tasks: Vec<TaskItem>,
    pub dirty: bool,
}

pub open spec fn files_view(files: Seq<TaskFile>) -> Seq<(Seq<TaskItemView>, bool)> {
    files.map_values(|f: TaskFile| (f.tasks.deep_view(), f.dirty))
}

/// First position of a task id in one list.
pub open spec fn position_in(tasks: Seq<TaskItemView>, id: Seq<char>, from: int) -> Option<int>
    decreases tasks.len() - from,
{
    if from < 0 || from >= tasks.len() {
        None
    } else if tasks[from].id == id {
        Some(from)
    } else {
        position_in(tasks, id, from + 1)
    }
}

/// The first file (in load order) holding the id, and the id's first position there.
pub open spec fn locate_task(files: Seq<(Seq<TaskItemView>, bool)>, id: Seq<char>, from: int) -> Option<(int, int)>
    decreases files.len() - from,
{
    if from < 0 || from >= files.len() {
        None
    } else {
        match position_in(files[from].0, id, 0) {
            Some(p) => Some((from, p)),
            None => locate_task(files, id, from + 1),
        }
    }
}

/// Moving one id: taken out of the file holding it, re-homed to the new source
/// with the given order and timestamp, appended to the destination (file 0);
/// both files become dirty. An id found nowhere changes nothing.
pub open spec fn move_one(
    files: Seq<(Seq<TaskItemView>, bool)>,
    id: Seq<char>,
    order: int,
    source_type: Seq<char>,
    source_id: Seq<char>,
    now: Seq<char>,
) -> Seq<(Seq<TaskItemView>, bool)> {
    match locate_task(files, id, 0) {
        None => files,
        Some((f, p)) => {
            let task = files[f].0[p];
            let moved = TaskItemView {
                source_type,
                source_id,
                source_order: order as i32,
                updated_at: now,
                ..task
            };
            let taken = files.update(f, (files[f].0.remove(p), true));
            taken.update(0, (taken[0].0.push(moved), true))
        },
    }
}

/// Moving every id in order, the `k`-th getting `insertion_order + k`.
pub open spec fn move_all(
    files: Seq<(Seq<TaskItemView>, bool)>,
    ids: Seq<Seq<char>>,
    insertion_order: int,
    source_type: Seq<char>,
    source_id: Seq<char>,
    now: Seq<char>,
) -> Seq<(Seq<TaskItemView>, bool)>
    decreases ids.len(),
{
    if ids.len() == 0 {
        files
    } else {
        move_one(
            move_all(files, ids.drop_last(), insertion_order, source_type, source_id, now),
            ids.last(),
            insertion_order + ids.len() - 1,
            source_type,
            source_id,
            now,
        )
    }
}

fn position_of(tasks: &Vec<TaskItem>, id: &str) -> (r: Option<usize>)
    ensures
        r matches Some(p) ==> position_in(tasks.deep_view(), id@, 0) == Some(p as int) && p < tasks@.len(),
        r is None ==> position_in(tasks.deep_view(), id@, 0) is None,
{
    let ghost tv = tasks.deep_view();
    let mut i: usize = 0;
    while i < tasks.len()
        invariant
            i <= tasks.len(),
            tv == tasks.deep_view(),
            position_in(tv, id@, 0) == position_in(tv, id@, i as int),
        decreases tasks.len() - i,
    {
        proof {
            assert(tv[i as int] == tasks@[i as int].deep_view());
        }
        if str_eq(tasks[i].id.as_str(), id) {
            return Some(i);
        }
        i = i + 1;
    }
    None
}

fn locate(files: &Vec<TaskFile>, id: &str) -> (r: Option<(usize, usize)>)
    ensures
        r matches Some((f, p)) ==> locate_task(files_view(files@), id@, 0) == Some((f as int, p as int)) && f < files@.len() && p < files@[f as int].tasks@.len(),
        r is None ==> locate_task(files_view(files@), id@, 0) is None,
{
    let ghost fv = files_view(files@);
    let mut f: usize = 0;
    while f < files.len()
        invariant
            f <= files.len(),
            fv == files_view(files@),
            locate_task(fv, id@, 0) == locate_task(fv, id@, f as int),
        decreases files.len() - f,
    {
        proof {
            assert(fv[f as int] == (files@[f as int].tasks.deep_view(), files@[f as int].dirty));
        }
        match position_of(&files[f].tasks, id) {
            Some(p) => {
                return Some((f, p));
            },
            None => {},
        }
        f = f + 1;
    }
    None
}

fn move_one_exec(files: &mut Vec<TaskFile>, id: &str, order: i32, source_type: &str, source_id: &str, now: &str)
    requires
        old(files)@.len() > 0,
    ensures
        final(files)@.len() == old(files)@.len(),
        forall|i: int| 0 <= i < final(files)@.len() ==> #[trigger] final(files)@[i].scope == old(files)@[i].scope,
        files_view(final(files)@) == move_one(files_view(old(files)@), id@, order as int, source_type@, source_id@, now@),
{
    let ghost fv0 = files_view(files@);
    let ghost files0 = files@;
    match locate(files, id) {
        None => {},
        Some((f, p)) => {
            let mut file = files.remove(f);
            let ghost old_tasks = file.tasks.deep_view();
            let ghost old_tasks_raw = file.tasks@;
            let mut task = file.tasks.remove(p);
            let ghost tv = task.deep_view();
            proof {
                assert(fv0[f as int] == (old_tasks, files0[f as int].dirty));
                assert(old_tasks[p as int] == old_tasks_raw[p as int].deep_view());
                assert(fv0[f as int].0[p as int] == tv);
                assert(file.tasks.deep_view() =~= old_tasks.remove(p as int));
            }
            task.source_type = crate::strings::to_owned_string(source_type);
            task.source_id = crate::strings::to_owned_string(source_id);
            task.source_order = order;
            task.updated_at = crate::strings::to_owned_string(now);
            file.dirty = true;
            let ghost file_g = file;
            files.insert(f, file);
            let ghost taken = files@;
            proof {
                assert(taken =~= files0.update(f as int, file_g));
                assert(files_view(taken) =~= fv0.update(f as int, (fv0[f as int].0.remove(p as int), true)));
            }
            let mut dest = files.remove(0);
            let ghost dest_before = dest.tasks.deep_view();
            dest.tasks.push(task);
            dest.dirty = true;
            proof {
                assert(dest.tasks.deep_view() =~= dest_before.push(TaskItemView {
                    source_type: source_type@,
                    source_id: source_id@,
                    source_order: order,
                    updated_at: now@,
                    ..tv
                }));
            }
            files.insert(0, dest);
            proof {
                assert(files_view(files@) =~= move_one(fv0, id@, order as int, source_type@, source_id@, now@));
            }
        },
    }
}

/// Re-homes tasks (found by id in any loaded file) to a new source, appending
/// them to the destination file (`files[0]`) in the given id order with
/// `insertion_order + index`; ids that exist nowhere are skipped. The files
/// keep their scopes; the touched ones are marked dirty.
pub fn move_tasks_between(
    files: &mut Vec<TaskFile>,
    task_ids: &Vec<String>,
    next_source_type: &str,
    next_source_id: &str,
    insertion_order: i32,
    now: &str,
)
    requires
        old(files)@.len() > 0,
        insertion_order + task_ids@.len() - 1 <= i32::MAX,
        task_ids@.len() <= i32::MAX + 1,
    ensures
        final(files)@.len() == old(files)@.len(),
        forall|i: int| 0 <= i < final(files)@.len() ==> #[trigger] final(files)@[i].scope == old(files)@[i].scope,
        files_view(final(files)@) == move_all(
            files_view(old(files)@),
            task_ids.deep_view(),
            insertion_order as int,
            next_source_type@,
            next_source_id@,
            now@,
        ),
{
    let ghost ids = task_ids.deep_view();
    let ghost fv0 = files_view(files@);
    let ghost files0 = files@;
    let mut k: usize = 0;
    assert(ids.subrange(0, 0) =~= Seq::<Seq<char>>::empty());
    while k < task_ids.len()
        invariant
            k <= task_ids.len(),
            ids == task_ids.deep_view(),
            insertion_order + task_ids@.len() - 1 <= i32::MAX,
            task_ids@.len() <= i32::MAX + 1,
            files@.len() == files0.len(),
            files0.len() > 0,
            fv0 == files_view(files0),
            forall|i: int| 0 <= i < files@.len() ==> #[trigger] files@[i].scope == files0[i].scope,
            files_view(files@) == move_all(fv0, ids.subrange(0, k as int), insertion_order as int, next_source_type@, next_source_id@, now@),
        decreases task_ids.len() - k,
    {
        let order: i32 = insertion_order + k as i32;
        proof {
            assert(order == insertion_order + k);
            assert(ids.subrange(0, k + 1).drop_last() =~= ids.subrange(0, k as int));
            assert(ids.subrange(0, k + 1).last() == task_ids@[k as int]@);
        }
        move_one_exec(files, task_ids[k].as_str(), order, next_source_type, next_source_id, now);
        k = k + 1;
    }
    proof {
        assert(ids.subrange(0, task_ids@.len() as int) =~= ids);
    }
}


impl DeepCopy for TaskItem {
    fn deep_copy(&self) -> (r: Self) {
        self.clone()
    }
}


/// Removing the same task ids from a source twice changes nothing the second
/// time.
pub proof fn lemma_remove_tasks_idempotent(existing: Seq<TaskItemView>, source_type: Seq<char>, source_id: Seq<char>, ids: Seq<Seq<char>>)
    ensures
        removed_tasks(removed_tasks(existing, source_type, source_id, ids), source_type, source_id, ids)
            == removed_tasks(existing, source_type, source_id, ids),
{
    crate::record::lemma_filter_twice(existing, |t: TaskItemView| !(from_source(t, source_type, source_id) && ids.contains(t.id)));
}

/// Filtering by one predicate and then another filters by both.
proof fn lemma_filter_filter<A>(s: Seq<A>, p: spec_fn(A) -> bool, q: spec_fn(A) -> bool)
    ensures
        s.filter(p).filter(q) == s.filter(|x: A| p(x) && q(x)),
    decreases s.len(),
{
    reveal_with_fuel(Seq::<_>::filter, 1);
    if s.len() > 0 {
        lemma_filter_filter(s.drop_last(), p, q);
        let f = s.drop_last().filter(p);
        if p(s.last()) {
            assert(f.push(s.last()).drop_last() =~= f);
        }
    }
}

/// A sequence every element of which passes a predicate is its own filter,
/// and one none of which passes filters to nothing.
proof fn lemma_filter_all_or_none<A>(s: Seq<A>, p: spec_fn(A) -> bool)
    ensures
        (forall|i: int| 0 <= i < s.len() ==> #[trigger] p(s[i])) ==> s.filter(p) == s,
        (forall|i: int| 0 <= i < s.len() ==> !#[trigger] p(s[i])) ==> s.filter(p) == Seq::<A>::empty(),
    decreases s.len(),
{
    reveal_with_fuel(Seq::<_>::filter, 1);
    if s.len() > 0 {
        lemma_filter_all_or_none(s.drop_last(), p);
        if forall|i: int| 0 <= i < s.len() ==> #[trigger] p(s[i]) {
            assert forall|i: int| 0 <= i < s.drop_last().len() implies #[trigger] p(s.drop_last()[i]) by {
                assert(s.drop_last()[i] == s[i]);
            }
            assert(s.drop_last().push(s.last()) =~= s);
        }
        if forall|i: int| 0 <= i < s.len() ==> !#[trigger] p(s[i]) {
            assert forall|i: int| 0 <= i < s.drop_last().len() implies !#[trigger] p(s.drop_last()[i]) by {
                assert(s.drop_last()[i] == s[i]);
            }
            assert(!p(s[s.len() - 1]));
        }
    }
}

/// Reading a source back after replacing its tasks gives exactly the stored
/// inputs, in input order; every other source keeps its tasks, less those
/// whose id an input took over.
pub proof fn lemma_replaced_source_reads_back(
    existing: Seq<TaskItemView>,
    source_type: Seq<char>,
    source_id: Seq<char>,
    inputs: Seq<TaskInputView>,
    now: Seq<char>,
    other_type: Seq<char>,
    other_id: Seq<char>,
)
    ensures
        replaced_tasks(existing, source_type, source_id, inputs, now).filter(
            |t: TaskItemView| from_source(t, source_type, source_id),
        ) == inputs.map_values(
            |i: TaskInputView| task_from_input(i, source_type, source_id, last_with_id(existing, i.id), now),
        ),
        !(other_type == source_type && other_id == source_id) ==> replaced_tasks(
            existing,
            source_type,
            source_id,
            inputs,
            now,
        ).filter(|t: TaskItemView| from_source(t, other_type, other_id)) == existing.filter(
            |t: TaskItemView| from_source(t, other_type, other_id) && !inputs.map_values(
                |i: TaskInputView| i.id,
            ).contains(t.id),
        ),
{
    let input_ids = inputs.map_values(|i: TaskInputView| i.id);
    let keep = |t: TaskItemView| !from_source(t, source_type, source_id) && !input_ids.contains(t.id);
    let stored = inputs.map_values(
        |i: TaskInputView| task_from_input(i, source_type, source_id, last_with_id(existing, i.id), now),
    );
    let kept = existing.filter(keep);
    let mine = |t: TaskItemView| from_source(t, source_type, source_id);
    let theirs = |t: TaskItemView| from_source(t, other_type, other_id);
    assert(replaced_tasks(existing, source_type, source_id, inputs, now) == kept + stored);
    Seq::filter_distributes_over_add(kept, stored, mine);
    Seq::filter_distributes_over_add(kept, stored, theirs);
    assert forall|i: int| 0 <= i < kept.len() implies !#[trigger] mine(kept[i]) by {
        existing.lemma_filter_pred(keep, i);
    }
    assert forall|i: int| 0 <= i < stored.len() implies #[trigger] mine(stored[i]) by {
        assert(stored[i] == task_from_input(inputs[i], source_type, source_id, last_with_id(existing, inputs[i].id), now));
    }
    lemma_filter_all_or_none(kept, mine);
    lemma_filter_all_or_none(stored, mine);
    assert(kept.filter(mine) + stored.filter(mine) =~= stored);
    if !(other_type == source_type && other_id == source_id) {
        assert forall|i: int| 0 <= i < stored.len() implies !#[trigger] theirs(stored[i]) by {
            assert(stored[i] == task_from_input(inputs[i], source_type, source_id, last_with_id(existing, inputs[i].id), now));
        }
        lemma_filter_all_or_none(stored, theirs);
        lemma_filter_filter(existing, keep, theirs);
        let both = |t: TaskItemView| keep(t) && theirs(t);
        let wanted = |t: TaskItemView| from_source(t, other_type, other_id) && !input_ids.contains(t.id);
        assert(both =~= wanted);
        assert(kept.filter(theirs) + stored.filter(theirs) =~= kept.filter(theirs));
    }
}


/// Some loaded file holds a task with this id.
pub open spec fn holds_task(files: Seq<(Seq<TaskItemView>, bool)>, id: Seq<char>) -> bool {
    exists|f: int, q: int| 0 <= f < files.len() && 0 <= q < files[f].0.len() && (#[trigger] files[f].0[q]).id == id
}

/// Whether any file has a task equal to `t` in every field.
pub open spec fn held_somewhere(files: Seq<(Seq<TaskItemView>, bool)>, t: TaskItemView) -> bool {
    exists|f: int, q: int| 0 <= f < files.len() && 0 <= q < files[f].0.len() && #[trigger] files[f].0[q] == t
}

/// A task re-homed to a source: only its source, its order there and its
/// update time change.
pub open spec fn rehomed(t: TaskItemView, source_type: Seq<char>, source_id: Seq<char>, order: int, now: Seq<char>) -> TaskItemView {
    TaskItemView { source_type, source_id, source_order: order as i32, updated_at: now, ..t }
}

/// Position `q` of a destination list holds the task `id`, re-homed to the
/// given source with the given order and timestamp: a task some file of
/// `files` held under that id, with nothing else changed.
pub open spec fn lands_rehomed(
    files: Seq<(Seq<TaskItemView>, bool)>,
    d: Seq<TaskItemView>,
    q: int,
    id: Seq<char>,
    source_type: Seq<char>,
    source_id: Seq<char>,
    order: int,
    now: Seq<char>,
) -> bool {
    &&& 0 <= q < d.len()
    &&& d[q].id == id
    &&& d[q].source_type == source_type
    &&& d[q].source_id == source_id
    &&& d[q].source_order == order as i32
    &&& d[q].updated_at == now
    &&& exists|t: TaskItemView| #[trigger] held_somewhere(files, t) && t.id == id && d[q] == rehomed(
        t,
        source_type,
        source_id,
        order,
        now,
    )
}

/// The destination file (file 0) holds this exact task.
pub open spec fn destination_holds(files: Seq<(Seq<TaskItemView>, bool)>, t: TaskItemView) -> bool {
    exists|q: int| 0 <= q < files[0].0.len() && #[trigger] files[0].0[q] == t
}

proof fn lemma_position_in(tasks: Seq<TaskItemView>, id: Seq<char>, from: int)
    requires
        0 <= from,
    ensures
        position_in(tasks, id, from) matches Some(q) ==> from <= q < tasks.len() && tasks[q].id == id,
        (exists|q: int| from <= q < tasks.len() && #[trigger] tasks[q].id == id) ==> position_in(tasks, id, from) is Some,
    decreases tasks.len() - from,
{
    if from < tasks.len() && tasks[from].id != id {
        lemma_position_in(tasks, id, from + 1);
        if exists|q: int| from <= q < tasks.len() && #[trigger] tasks[q].id == id {
            let q = choose|q: int| from <= q < tasks.len() && #[trigger] tasks[q].id == id;
            assert(q != from);
        }
    }
}

proof fn lemma_locate_task(files: Seq<(Seq<TaskItemView>, bool)>, id: Seq<char>, from: int)
    requires
        0 <= from,
    ensures
        locate_task(files, id, from) matches Some((f, q)) ==> from <= f < files.len() && 0 <= q < files[f].0.len()
            && files[f].0[q].id == id,
        (exists|f: int, q: int| from <= f < files.len() && 0 <= q < files[f].0.len() && (#[trigger] files[f].0[q]).id
            == id) ==> locate_task(files, id, from) is Some,
    decreases files.len() - from,
{
    if from < files.len() {
        lemma_position_in(files[from].0, id, 0);
        lemma_locate_task(files, id, from + 1);
        if exists|f: int, q: int| from <= f < files.len() && 0 <= q < files[f].0.len() && (#[trigger] files[f].0[q]).id
            == id {
            let (f, q) = choose|f: int, q: int| from <= f < files.len() && 0 <= q < files[f].0.len() && (
            #[trigger] files[f].0[q]).id == id;
            if f == from {
                assert(files[from].0[q].id == id);
            }
        }
    }
}

/// Moving one id keeps every file, keeps every other id somewhere, keeps in
/// the destination every task of another id it held, and, when the id is
/// held somewhere, ends the destination with that task re-homed.
proof fn lemma_move_one(
    files: Seq<(Seq<TaskItemView>, bool)>,
    id: Seq<char>,
    order: int,
    source_type: Seq<char>,
    source_id: Seq<char>,
    now: Seq<char>,
)
    requires
        files.len() > 0,
    ensures
        ({
            let r = move_one(files, id, order, source_type, source_id, now);
            &&& r.len() == files.len()
            &&& forall|other: Seq<char>| other != id && #[trigger] holds_task(files, other) ==> holds_task(r, other)
            &&& forall|t: TaskItemView| t.id != id && #[trigger] destination_holds(files, t) ==> destination_holds(r, t)
            &&& holds_task(files, id) ==> r[0].0.len() > 0 && r[0].0.last().id == id && r[0].0.last().source_type
                == source_type && r[0].0.last().source_id == source_id && r[0].0.last().source_order == order as i32
                && r[0].0.last().updated_at == now
            &&& holds_task(files, id) ==> exists|t: TaskItemView| #[trigger] held_somewhere(files, t) && t.id == id
                && r[0].0.last() == rehomed(t, source_type, source_id, order, now)
            &&& forall|g: int, q: int| 0 <= g < r.len() && 0 <= q < r[g].0.len() && (#[trigger] r[g].0[q]).id != id
                ==> held_somewhere(files, r[g].0[q])
        }),
{
    lemma_locate_task(files, id, 0);
    let r = move_one(files, id, order, source_type, source_id, now);
    match locate_task(files, id, 0) {
        None => {},
        Some((f, p)) => {
            let taken = files.update(f, (files[f].0.remove(p), true));
            let d = r[0].0;
            assert(d == taken[0].0.push(d.last()));
            // where a kept task of file `g` at `q` (not the moved one) ends up
            assert forall|g: int, q: int| #![trigger files[g].0[q]] 0 <= g < files.len() && 0 <= q < files[g].0.len() && !(g == f && q == p) implies ({
                let q2 = if g == f && q > p { q - 1 } else { q };
                &&& 0 <= q2 < r[g].0.len()
                &&& r[g].0[q2] == files[g].0[q]
            }) by {
                let q2 = if g == f && q > p { q - 1 } else { q };
                if g == f {
                    assert(taken[g].0 == files[f].0.remove(p));
                    assert(taken[g].0[q2] == files[g].0[q]);
                } else {
                    assert(taken[g] == files[g]);
                }
                if g == 0 {
                    assert(r[0].0 == taken[0].0.push(d.last()));
                } else {
                    assert(r[g] == taken[g]);
                }
            }
            assert forall|other: Seq<char>| other != id && #[trigger] holds_task(files, other) implies holds_task(r, other) by {
                let (g, q) = choose|g: int, q: int| 0 <= g < files.len() && 0 <= q < files[g].0.len() && (
                #[trigger] files[g].0[q]).id == other;
                let q2 = if g == f && q > p { q - 1 } else { q };
                assert(r[g].0[q2].id == other);
            }
            assert forall|t: TaskItemView| t.id != id && #[trigger] destination_holds(files, t) implies destination_holds(r, t) by {
                let q = choose|q: int| 0 <= q < files[0].0.len() && #[trigger] files[0].0[q] == t;
                let q2 = if 0 == f && q > p { q - 1 } else { q };
                assert(r[0].0[q2] == t);
            }
            assert(held_somewhere(files, files[f].0[p]));
            assert(d.last() == rehomed(files[f].0[p], source_type, source_id, order, now));
            assert forall|g: int, q: int| 0 <= g < r.len() && 0 <= q < r[g].0.len() && (#[trigger] r[g].0[q]).id != id
                implies held_somewhere(files, r[g].0[q]) by {
                if g == 0 && q == d.len() - 1 {
                    assert(r[g].0[q] == d.last());
                } else {
                    let q1 = if g == f && q >= p { q + 1 } else { q };
                    if g == f {
                        assert(taken[g].0 == files[f].0.remove(p));
                    }
                    if g == 0 {
                        assert(r[0].0[q] == taken[0].0[q]);
                    } else {
                        assert(r[g] == taken[g]);
                    }
                    assert(r[g].0[q] == files[g].0[q1]);
                }
            }
        },
    }
}

proof fn lemma_move_all_keeps(
    files: Seq<(Seq<TaskItemView>, bool)>,
    ids: Seq<Seq<char>>,
    insertion_order: int,
    source_type: Seq<char>,
    source_id: Seq<char>,
    now: Seq<char>,
    id: Seq<char>,
)
    requires
        files.len() > 0,
        !ids.contains(id),
        holds_task(files, id),
    ensures
        move_all(files, ids, insertion_order, source_type, source_id, now).len() == files.len(),
        holds_task(move_all(files, ids, insertion_order, source_type, source_id, now), id),
    decreases ids.len(),
{
    if ids.len() > 0 {
        assert(ids.drop_last().contains(id) ==> ids.contains(id));
        lemma_move_all_keeps(files, ids.drop_last(), insertion_order, source_type, source_id, now, id);
        let prev = move_all(files, ids.drop_last(), insertion_order, source_type, source_id, now);
        assert(ids.last() != id);
        lemma_move_one(prev, ids.last(), insertion_order + ids.len() - 1, source_type, source_id, now);
    }
}

proof fn lemma_move_all_origin(
    files: Seq<(Seq<TaskItemView>, bool)>,
    ids: Seq<Seq<char>>,
    insertion_order: int,
    source_type: Seq<char>,
    source_id: Seq<char>,
    now: Seq<char>,
)
    requires
        files.len() > 0,
    ensures
        forall|g: int, q: int|
            0 <= g < move_all(files, ids, insertion_order, source_type, source_id, now).len() && 0 <= q < move_all(
                files,
                ids,
                insertion_order,
                source_type,
                source_id,
                now,
            )[g].0.len() && !ids.contains(
                (#[trigger] move_all(files, ids, insertion_order, source_type, source_id, now)[g].0[q]).id,
            ) ==> held_somewhere(files, move_all(files, ids, insertion_order, source_type, source_id, now)[g].0[q]),
    decreases ids.len(),
{
    if ids.len() > 0 {
        let init = ids.drop_last();
        lemma_move_all_origin(files, init, insertion_order, source_type, source_id, now);
        lemma_move_all_keeps_len(files, init, insertion_order, source_type, source_id, now);
        let prev = move_all(files, init, insertion_order, source_type, source_id, now);
        let r = move_all(files, ids, insertion_order, source_type, source_id, now);
        lemma_move_one(prev, ids.last(), insertion_order + ids.len() - 1, source_type, source_id, now);
        assert forall|g: int, q: int| 0 <= g < r.len() && 0 <= q < r[g].0.len() && !ids.contains((#[trigger] r[g].0[q]).id)
            implies held_somewhere(files, r[g].0[q]) by {
            let x = r[g].0[q];
            assert(x.id != ids[ids.len() - 1]);
            assert(held_somewhere(prev, x));
            let (g1, q1) = choose|g1: int, q1: int| 0 <= g1 < prev.len() && 0 <= q1 < prev[g1].0.len() && #[trigger] prev[g1].0[q1] == x;
            if init.contains(x.id) {
                let j = choose|j: int| 0 <= j < init.len() && init[j] == x.id;
                assert(ids[j] == init[j]);
            }
            assert(prev[g1].0[q1] == x);
        }
    }
}

/// Every id a move asks for (each asked once) that some file holds ends up
/// in the destination file under the requested source, with its turn's order
/// (`insertion_order + k` for the `k`-th id) and the move's timestamp.
pub proof fn lemma_moved_tasks_take_the_new_source(
    files: Seq<(Seq<TaskItemView>, bool)>,
    ids: Seq<Seq<char>>,
    insertion_order: int,
    source_type: Seq<char>,
    source_id: Seq<char>,
    now: Seq<char>,
)
    requires
        files.len() > 0,
        forall|i: int, j: int| 0 <= i < j < ids.len() ==> ids[i] != ids[j],
    ensures
        forall|k: int| 0 <= k < ids.len() && holds_task(files, #[trigger] ids[k]) ==> exists|q: int| #[trigger] lands_rehomed(
            files,
            move_all(files, ids, insertion_order, source_type, source_id, now)[0].0,
            q,
            ids[k],
            source_type,
            source_id,
            insertion_order + k,
            now,
        ),
    decreases ids.len(),
{
    if ids.len() > 0 {
        let n = ids.len() - 1;
        let init = ids.drop_last();
        lemma_moved_tasks_take_the_new_source(files, init, insertion_order, source_type, source_id, now);
        let prev = move_all(files, init, insertion_order, source_type, source_id, now);
        let r = move_all(files, ids, insertion_order, source_type, source_id, now);
        assert(r == move_one(prev, ids[n], insertion_order + n, source_type, source_id, now));
        if holds_task(files, ids[n]) {
            assert(!init.contains(ids[n])) by {
                if init.contains(ids[n]) {
                    let j = choose|j: int| 0 <= j < init.len() && init[j] == ids[n];
                    assert(ids[j] == init[j]);
                }
            }
            lemma_move_all_keeps(files, init, insertion_order, source_type, source_id, now, ids[n]);
            lemma_move_all_origin(files, init, insertion_order, source_type, source_id, now);
        } else {
            lemma_move_all_keeps_len(files, init, insertion_order, source_type, source_id, now);
        }
        lemma_move_one(prev, ids[n], insertion_order + n, source_type, source_id, now);
        assert forall|k: int| 0 <= k < ids.len() && holds_task(files, #[trigger] ids[k]) implies exists|q: int|
            #[trigger] lands_rehomed(files, r[0].0, q, ids[k], source_type, source_id, insertion_order + k, now) by {
            if k == n {
                let d = r[0].0;
                assert(d[d.len() - 1] == d.last());
                let t = choose|t: TaskItemView| #[trigger] held_somewhere(prev, t) && t.id == ids[n]
                    && d.last() == rehomed(t, source_type, source_id, insertion_order + n, now);
                let (g1, q1) = choose|g1: int, q1: int| 0 <= g1 < prev.len() && 0 <= q1 < prev[g1].0.len() && #[trigger] prev[g1].0[q1] == t;
                assert(!init.contains(prev[g1].0[q1].id));
                assert(held_somewhere(files, t));
                assert(lands_rehomed(files, d, d.len() - 1, ids[k], source_type, source_id, insertion_order + k, now));
            } else {
                assert(init[k] == ids[k]);
                let q = choose|q: int| #[trigger] lands_rehomed(files, prev[0].0, q, init[k], source_type, source_id, insertion_order + k, now);
                let t = prev[0].0[q];
                assert(destination_holds(prev, t));
                assert(t.id != ids[n]);
                assert(destination_holds(r, t));
                let q2 = choose|q2: int| 0 <= q2 < r[0].0.len() && #[trigger] r[0].0[q2] == t;
                assert(r[0].0[q2] == t);
                assert(lands_rehomed(files, r[0].0, q2, ids[k], source_type, source_id, insertion_order + k, now));
            }
        }
    }
}

proof fn lemma_move_all_keeps_len(
    files: Seq<(Seq<TaskItemView>, bool)>,
    ids: Seq<Seq<char>>,
    insertion_order: int,
    source_type: Seq<char>,
    source_id: Seq<char>,
    now: Seq<char>,
)
    requires
        files.len() > 0,
    ensures
        move_all(files, ids, insertion_order, source_type, source_id, now).len() == files.len(),
    decreases ids.len(),
{
    if ids.len() > 0 {
        lemma_move_all_keeps_len(files, ids.drop_last(), insertion_order, source_type, source_id, now);
        let prev = move_all(files, ids.drop_last(), insertion_order, source_type, source_id, now);
        lemma_move_one(prev, ids.last(), insertion_order + ids.len() - 1, source_type, source_id, now);
    }
}

} // verus!
