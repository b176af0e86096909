//! The in-memory vault index: a typed mirror of the vault files, kept current by
//! write-through after every file write, plus the change-event coalescing.

use vstd::prelude::*;
use vstd::string::*;

use crate::enhanced::EnhancedDoc;
use crate::keyed::{
    Keyed, as_map, get_value, insert_value, keys_unique, lemma_as_map, remove_key,
};
use crate::meta::{SessionMeta, SessionMetaView, sort_dedup_names, strictly_sorted, vec_contains_str};
use crate::people::PersonItem;
use crate::record::{DeepCopy, Same, copy_opt, copy_vec, same_opt, same_vec};
use crate::order::{SortKey, lemma_str_pair_le_total, lemma_str_pair_le_transitive, sorted_seq, str_pair_le};
use crate::strings::{seq_le, seq_lt, str_eq, str_lt, trim, unicode_trim};
use crate::strings::{lemma_seq_lt_irreflexive, lemma_seq_lt_total, lemma_seq_lt_transitive};
use crate::order::{lemma_seq_le_total, lemma_seq_le_transitive};
use crate::tags::TagItem;
use crate::tasks::TaskItem;

verus! {

/// Which index map changed.
#[derive(Debug, Clone, Copy, PartialEq, Eq, Structural)]
pub enum IndexEntity {
    Sessions,
    Docs,
    Transcripts,
    Tasks,
    People,
    /// The vault-root `tags.json` registry changed.
    Tags,
    /// A session's physical directory changed.
    Locations,
}

impl DeepView for IndexEntity {
    type V = IndexEntity;

    open spec fn deep_view(&self) -> IndexEntity {
        *self
    }
}

/// One coalesced change notification.
#[derive(Debug)]
pub struct IndexChanged {
    pub entity: IndexEntity,
    pub ids: Vec<String>,
}

pub struct IndexChangedView {
    pub entity: IndexEntity,
    pub ids: Seq<Seq<char>>,
}

impl DeepView for IndexChanged {
    type V = IndexChangedView;

    open spec fn deep_view(&self) -> IndexChangedView {
        IndexChangedView { entity: self.entity, ids: self.ids.deep_view() }
    }
}

/// `meta` + note markdown for one session.
#[derive(Debug)]
pub struct SessionEntry {
    pub meta: SessionMeta,
    pub note_markdown: Option<String>,
}

pub struct SessionEntryView {
    pub meta: SessionMetaView,
    pub note_markdown: Option<Seq<char>>,
}

impl DeepView for SessionEntry {
    type V = SessionEntryView;

    open spec fn deep_view(&self) -> SessionEntryView {
        SessionEntryView { meta: self.meta.deep_view(), note_markdown: self.note_markdown.deep_view() }
    }
}

impl Same for SessionEntry {
    fn same(&self, other: &Self) -> (r: bool) {
        self.meta.same(&other.meta) && same_opt(&self.note_markdown, &other.note_markdown)
    }
}

/// What `session_get` returns: the session's meta plus its note.
#[derive(Debug)]
pub struct SessionRecord {
    pub meta: SessionMeta,
    pub note_markdown: Option<String>,
}

/// What the index keeps per `transcript.json` instead of the words.
#[derive(Debug)]
pub struct TranscriptSummary {
    /// Transcript ids in file order.
    pub transcript_ids: Vec<String>,
    /// Any transcript in the file has at least one word.
    pub has_words: bool,
    /// Total words across the file's transcripts.
    pub word_count: u64,
    /// Truncated sha2 of the raw file bytes.
    pub content_hash: u64,
}

pub struct TranscriptSummaryView {
    pub transcript_ids: Seq<Seq<char>>,
    pub has_words: bool,
    pub word_count: u64,
    pub content_hash: u64,
}

impl DeepView for TranscriptSummary {
    type V = TranscriptSummaryView;

    open spec fn deep_view(&self) -> TranscriptSummaryView {
        TranscriptSummaryView {
            transcript_ids: self.transcript_ids.deep_view(),
            has_words: self.has_words,
            word_count: self.word_count,
            content_hash: self.content_hash,
        }
    }
}

impl Same for TranscriptSummary {
    fn same(&self, other: &Self) -> (r: bool) {
        same_vec(&self.transcript_ids, &other.transcript_ids) && self.has_words == other.has_words
            && self.word_count == other.word_count && self.content_hash == other.content_hash
    }
}

impl DeepCopy for TranscriptSummary {
    fn deep_copy(&self) -> (r: Self) {
        TranscriptSummary {
            transcript_ids: copy_vec(&self.transcript_ids),
            has_words: self.has_words,
            word_count: self.word_count,
            content_hash: self.content_hash,
        }
    }
}

/// The in-memory mirror of the vault, one string-keyed map per entity. Empty
/// collections are kept absent, so comparisons stay meaningful.
#[derive(Debug)]
pub struct VaultIndex {
    pub sessions: Vec<Keyed<SessionEntry>>,
    /// Session id -> that session's `enhanced/<id>.md` docs.
    pub docs: Vec<Keyed<Vec<EnhancedDoc>>>,
    pub transcripts: Vec<Keyed<TranscriptSummary>>,
    /// Session id (or the empty key for the vault-root file) -> that file's tasks.
    pub tasks: Vec<Keyed<Vec<TaskItem>>>,
    pub people: Vec<Keyed<PersonItem>>,
    pub tags: Vec<Keyed<TagItem>>,
    /// Session id -> its `summary.md` markdown.
    pub summaries: Vec<Keyed<String>>,
}

impl VaultIndex {
    /// Every map has distinct keys.
    pub open spec fn wf(&self) -> bool {
        &&& keys_unique(self.sessions@)
        &&& keys_unique(self.docs@)
        &&& keys_unique(self.transcripts@)
        &&& keys_unique(self.tasks@)
        &&& keys_unique(self.people@)
        &&& keys_unique(self.tags@)
        &&& keys_unique(self.summaries@)
    }

    pub open spec fn session_map(&self) -> Map<Seq<char>, SessionEntry> {
        as_map(self.sessions@)
    }

    pub open spec fn doc_map(&self) -> Map<Seq<char>, Vec<EnhancedDoc>> {
        as_map(self.docs@)
    }

    pub open spec fn transcript_map(&self) -> Map<Seq<char>, TranscriptSummary> {
        as_map(self.transcripts@)
    }

    pub open spec fn task_map(&self) -> Map<Seq<char>, Vec<TaskItem>> {
        as_map(self.tasks@)
    }

    pub open spec fn person_map(&self) -> Map<Seq<char>, PersonItem> {
        as_map(self.people@)
    }

    pub open spec fn tag_map(&self) -> Map<Seq<char>, TagItem> {
        as_map(self.tags@)
    }

    pub open spec fn summary_map(&self) -> Map<Seq<char>, String> {
        as_map(self.summaries@)
    }

    /// An empty index.
    pub fn new() -> (r: VaultIndex)
        ensures
            r.wf(),
            r.sessions@.len() == 0,
            r.docs@.len() == 0,
            r.transcripts@.len() == 0,
            r.tasks@.len() == 0,
            r.people@.len() == 0,
            r.tags@.len() == 0,
            r.summaries@.len() == 0,
    {
        VaultIndex {
            sessions: Vec::new(),
            docs: Vec::new(),
            transcripts: Vec::new(),
            tasks: Vec::new(),
            people: Vec::new(),
            tags: Vec::new(),
            summaries: Vec::new(),
        }
    }

    /// Write-through of a `_meta.json` write: the entry's meta is replaced (its
    /// note kept), or a new entry without a note is added.
    pub fn upsert_meta(&mut self, meta: SessionMeta)
        requires
            old(self).wf(),
        ensures
            final(self).wf(),
            final(self).session_map() == old(self).session_map().insert(
                meta.id@,
                SessionEntry {
                    meta,
                    note_markdown: if old(self).session_map().dom().contains(meta.id@) {
                        old(self).session_map()[meta.id@].note_markdown
                    } else {
                        None
                    },
                },
            ),
            final(self).docs == old(self).docs,
            final(self).transcripts == old(self).transcripts,
            final(self).tasks == old(self).tasks,
            final(self).people == old(self).people,
            final(self).tags == old(self).tags,
            final(self).summaries == old(self).summaries,
    {
        let key = meta.id.clone();
        let previous = remove_key(&mut self.sessions, key.as_str());
        let note_markdown = match previous {
            Some(entry) => entry.note_markdown,
            None => None,
        };
        let ghost removed_map = as_map(self.sessions@);
        let ghost entry_g = SessionEntry { meta, note_markdown };
        insert_value(&mut self.sessions, key, SessionEntry { meta, note_markdown });
        proof {
            assert(as_map(self.sessions@) =~= old(self).session_map().insert(meta.id@, entry_g));
        }
    }

    /// Write-through of a note write. A session without a meta entry stays
    /// absent (a ghost session).
    pub fn set_note(&mut self, session_id: &str, markdown: Option<String>)
        requires
            old(self).wf(),
        ensures
            final(self).wf(),
            old(self).session_map().dom().contains(session_id@) ==> final(self).session_map()
                == old(self).session_map().insert(
                session_id@,
                SessionEntry { meta: old(self).session_map()[session_id@].meta, note_markdown: markdown },
            ),
            !old(self).session_map().dom().contains(session_id@) ==> final(self).session_map()
                == old(self).session_map(),
            final(self).docs == old(self).docs,
            final(self).transcripts == old(self).transcripts,
            final(self).tasks == old(self).tasks,
            final(self).people == old(self).people,
            final(self).tags == old(self).tags,
            final(self).summaries == old(self).summaries,
    {
        match remove_key(&mut self.sessions, session_id) {
            Some(entry) => {
                let key = crate::strings::to_owned_string(session_id);
                let ghost e = SessionEntry { meta: entry.meta, note_markdown: markdown };
                insert_value(&mut self.sessions, key, SessionEntry { meta: entry.meta, note_markdown: markdown });
                proof {
                    assert(as_map(self.sessions@) =~= old(self).session_map().insert(session_id@, e));
                }
            },
            None => {},
        }
    }

    /// Write-through of a doc write: replaces the session's doc with the same id,
    /// or appends it.
    pub fn upsert_doc(&mut self, doc: EnhancedDoc)
        requires
            old(self).wf(),
        ensures
            final(self).wf(),
            final(self).doc_map().dom() == old(self).doc_map().dom().insert(doc.session_id@),
            forall|k: Seq<char>| k != doc.session_id@ ==> #[trigger] final(self).doc_map().dom().contains(k) ==> final(self).doc_map()[k] == old(self).doc_map()[k],
            docs_with(
                if old(self).doc_map().dom().contains(doc.session_id@) {
                    old(self).doc_map()[doc.session_id@]@
                } else {
                    Seq::empty()
                },
                doc,
                final(self).doc_map()[doc.session_id@]@,
            ),
            final(self).sessions == old(self).sessions,
            final(self).transcripts == old(self).transcripts,
            final(self).tasks == old(self).tasks,
            final(self).people == old(self).people,
            final(self).tags == old(self).tags,
            final(self).summaries == old(self).summaries,
    {
        let key = doc.session_id.clone();
        let ghost dg = doc;
        let mut docs = match remove_key(&mut self.docs, key.as_str()) {
            Some(v) => v,
            None => Vec::new(),
        };
        let ghost before = docs@;
        let mut i: usize = 0;
        let mut found = false;
        while !found && i < docs.len()
            invariant
                i <= docs.len(),
                docs@ == before,
                dg == doc,
                found ==> i < docs.len() && docs@[i as int].id@ == dg.id@,
                forall|j: int| 0 <= j < i ==> docs@[j].id@ != dg.id@,
            decreases docs.len() - i + (if found { 0int } else { 1int }),
        {
            if str_eq(docs[i].id.as_str(), doc.id.as_str()) {
                found = true;
            } else {
                i = i + 1;
            }
        }
        if found {
            let _old = docs.remove(i);
            docs.insert(i, doc);
            proof {
                assert(docs@ =~= before.update(i as int, dg));
            }
        } else {
            docs.push(doc);
        }
        let ghost dv = docs@;
        insert_value(&mut self.docs, key, docs);
        proof {
            lemma_as_map(self.docs@);
            assert(self.doc_map().dom() =~= old(self).doc_map().dom().insert(dg.session_id@));
        }
    }
}

/// The docs of a session after a doc write: the first doc with the same id is
/// replaced, or the doc is appended.
pub open spec fn docs_with(before: Seq<EnhancedDoc>, doc: EnhancedDoc, after: Seq<EnhancedDoc>) -> bool {
    (exists|i: int|
        0 <= i < before.len() && before[i].id@ == doc.id@ && (forall|j: int|
            0 <= j < i ==> before[j].id@ != doc.id@) && after == before.update(i, doc)) || ((forall|j: int|
        0 <= j < before.len() ==> before[j].id@ != doc.id@) && after == before.push(doc))
}


/// A session's docs without the doc of that id, in order.
fn docs_without(docs: &Vec<EnhancedDoc>, doc_id: &str) -> (r: Vec<EnhancedDoc>)
    ensures
        r@ == docs@.filter(|d: EnhancedDoc| d.id@ != doc_id@),
{
    let ghost pred = |d: EnhancedDoc| d.id@ != doc_id@;
    let mut kept: Vec<EnhancedDoc> = Vec::new();
    let mut k: usize = 0;
    while k < docs.len()
        invariant
            k <= docs.len(),
            pred == (|d: EnhancedDoc| d.id@ != doc_id@),
            kept@ == docs@.subrange(0, k as int).filter(pred),
        decreases docs.len() - k,
    {
        proof {
            assert(docs@.subrange(0, k + 1).drop_last() =~= docs@.subrange(0, k as int));
            reveal_with_fuel(Seq::<_>::filter, 1);
        }
        if !str_eq(docs[k].id.as_str(), doc_id) {
            kept.push(docs[k].clone());
        }
        proof {
            assert(kept@ =~= docs@.subrange(0, k + 1).filter(pred));
        }
        k = k + 1;
    }
    proof {
        assert(docs@.subrange(0, docs@.len() as int) =~= docs@);
    }
    kept
}

impl VaultIndex {
    /// Write-through of a doc delete: the doc leaves its session's list, and a
    /// list left empty leaves the map.
    pub fn remove_doc(&mut self, session_id: &str, doc_id: &str)
        requires
            old(self).wf(),
        ensures
            final(self).wf(),
            !old(self).doc_map().dom().contains(session_id@) ==> final(self).doc_map()
                == old(self).doc_map(),
            old(self).doc_map().dom().contains(session_id@) ==> {
                let kept = old(self).doc_map()[session_id@]@.filter(
                    |d: EnhancedDoc| d.id@ != doc_id@,
                );
                &&& final(self).doc_map().remove(session_id@) == old(self).doc_map().remove(session_id@)
                &&& (kept.len() == 0 <==> !final(self).doc_map().dom().contains(session_id@))
                &&& kept.len() > 0 ==> final(self).doc_map()[session_id@]@ == kept
            },
            final(self).sessions == old(self).sessions,
            final(self).transcripts == old(self).transcripts,
            final(self).tasks == old(self).tasks,
            final(self).people == old(self).people,
            final(self).tags == old(self).tags,
            final(self).summaries == old(self).summaries,
    {
        match remove_key(&mut self.docs, session_id) {
            None => {},
            Some(docs) => {
                let kept = docs_without(&docs, doc_id);
                if kept.len() > 0 {
                    let key = crate::strings::to_owned_string(session_id);
                    let ghost removed = as_map(self.docs@);
                    insert_value(&mut self.docs, key, kept);
                    proof {
                        assert(as_map(self.docs@).remove(session_id@) =~= removed.remove(session_id@));
                    }
                } else {
                    proof {
                        assert(as_map(self.docs@).remove(session_id@) =~= as_map(self.docs@));
                    }
                }
            },
        }
    }

    /// Write-through of a `transcript.json` write; a file without transcripts
    /// leaves the map.
    pub fn set_transcript_summary(&mut self, session_id: &str, summary: TranscriptSummary)
        requires
            old(self).wf(),
        ensures
            final(self).wf(),
            summary.transcript_ids@.len() == 0 ==> final(self).transcript_map() == old(self).transcript_map().remove(session_id@),
            summary.transcript_ids@.len() > 0 ==> final(self).transcript_map() == old(self).transcript_map().insert(session_id@, summary),
            final(self).sessions == old(self).sessions,
            final(self).docs == old(self).docs,
            final(self).tasks == old(self).tasks,
            final(self).people == old(self).people,
            final(self).tags == old(self).tags,
            final(self).summaries == old(self).summaries,
    {
        if summary.transcript_ids.len() == 0 {
            remove_key(&mut self.transcripts, session_id);
        } else {
            insert_value(&mut self.transcripts, crate::strings::to_owned_string(session_id), summary);
        }
    }

    /// Write-through of a `tasks.json` write; an empty list leaves the map.
    pub fn set_tasks(&mut self, key: &str, tasks: Vec<TaskItem>)
        requires
            old(self).wf(),
        ensures
            final(self).wf(),
            tasks@.len() == 0 ==> final(self).task_map() == old(self).task_map().remove(key@),
            tasks@.len() > 0 ==> final(self).task_map() == old(self).task_map().insert(key@, tasks),
            final(self).sessions == old(self).sessions,
            final(self).docs == old(self).docs,
            final(self).transcripts == old(self).transcripts,
            final(self).people == old(self).people,
            final(self).tags == old(self).tags,
            final(self).summaries == old(self).summaries,
    {
        if tasks.len() == 0 {
            remove_key(&mut self.tasks, key);
        } else {
            insert_value(&mut self.tasks, crate::strings::to_owned_string(key), tasks);
        }
    }

    /// Write-through of a person write, keyed by the person's id.
    pub fn upsert_person(&mut self, person: PersonItem)
        requires
            old(self).wf(),
        ensures
            final(self).wf(),
            final(self).person_map() == old(self).person_map().insert(person.id@, person),
            final(self).sessions == old(self).sessions,
            final(self).docs == old(self).docs,
            final(self).transcripts == old(self).transcripts,
            final(self).tasks == old(self).tasks,
            final(self).tags == old(self).tags,
            final(self).summaries == old(self).summaries,
    {
        let key = person.id.clone();
        insert_value(&mut self.people, key, person);
    }

    /// Write-through of a tag registration, keyed by the tag's id.
    pub fn upsert_tag(&mut self, tag: TagItem)
        requires
            old(self).wf(),
        ensures
            final(self).wf(),
            final(self).tag_map() == old(self).tag_map().insert(tag.id@, tag),
            final(self).sessions == old(self).sessions,
            final(self).docs == old(self).docs,
            final(self).transcripts == old(self).transcripts,
            final(self).tasks == old(self).tasks,
            final(self).people == old(self).people,
            final(self).summaries == old(self).summaries,
    {
        let key = tag.id.clone();
        insert_value(&mut self.tags, key, tag);
    }

    /// Removes every trace of a session (delete path) and reports which
    /// entities actually held something, each with the session id.
    pub fn remove_session(&mut self, session_id: &str) -> (changes: Vec<(IndexEntity, String)>)
        requires
            old(self).wf(),
        ensures
            final(self).wf(),
            final(self).session_map() == old(self).session_map().remove(session_id@),
            final(self).doc_map() == old(self).doc_map().remove(session_id@),
            final(self).transcript_map() == old(self).transcript_map().remove(session_id@),
            final(self).task_map() == old(self).task_map().remove(session_id@),
            final(self).people == old(self).people,
            final(self).tags == old(self).tags,
            final(self).summaries == old(self).summaries,
            changes.deep_view() == removed_entities(*old(self), session_id@).map_values(
                |e: IndexEntity| (e, session_id@),
            ),
    {
        let ghost sid = session_id@;
        let ghost o = *old(self);
        let mut changes: Vec<(IndexEntity, String)> = Vec::new();
        let mut found = Vec::new();
        if remove_key(&mut self.sessions, session_id).is_some() {
            found.push(IndexEntity::Sessions);
        }
        if remove_key(&mut self.docs, session_id).is_some() {
            found.push(IndexEntity::Docs);
        }
        if remove_key(&mut self.transcripts, session_id).is_some() {
            found.push(IndexEntity::Transcripts);
        }
        if remove_key(&mut self.tasks, session_id).is_some() {
            found.push(IndexEntity::Tasks);
        }
        proof {
            assert(found@ =~= removed_entities(o, sid));
        }
        let mut k: usize = 0;
        while k < found.len()
            invariant
                k <= found.len(),
                found@ == removed_entities(o, sid),
                sid == session_id@,
                changes.deep_view() == found@.subrange(0, k as int).map_values(
                    |e: IndexEntity| (e, sid),
                ),
            decreases found.len() - k,
        {
            let ghost before = changes.deep_view();
            let owned = crate::strings::to_owned_string(session_id);
            let pair = (found[k], owned);
            proof {
                assert(pair.deep_view() == (found@[k as int], sid));
            }
            changes.push(pair);
            proof {
                assert(changes.deep_view() =~= before.push((found@[k as int], sid)));
                assert(changes.deep_view() =~= found@.subrange(0, k + 1).map_values(
                    |e: IndexEntity| (e, sid),
                ));
            }
            k = k + 1;
        }
        proof {
            assert(found@.subrange(0, found@.len() as int) =~= found@);
        }
        changes
    }
}

/// The entities that hold something for a session, in notification order.
pub open spec fn removed_entities(index: VaultIndex, session_id: Seq<char>) -> Seq<IndexEntity> {
    (if index.session_map().dom().contains(session_id) { seq![IndexEntity::Sessions] } else { seq![] })
        + (if index.doc_map().dom().contains(session_id) { seq![IndexEntity::Docs] } else { seq![] })
        + (if index.transcript_map().dom().contains(session_id) { seq![IndexEntity::Transcripts] } else { seq![] })
        + (if index.task_map().dom().contains(session_id) { seq![IndexEntity::Tasks] } else { seq![] })
}


/// Whether storing `value` under `key` changes what the map observably holds
/// (an empty list stands for an absent key).
pub open spec fn value_changed<V: DeepView>(m: Map<Seq<char>, Vec<V>>, key: Seq<char>, value: Vec<V>) -> bool {
    if value@.len() == 0 {
        m.dom().contains(key)
    } else {
        !(m.dom().contains(key) && m[key].deep_view() == value.deep_view())
    }
}

/// The map after storing `value` under `key`, empty meaning absent.
pub open spec fn value_applied<V: DeepView>(m: Map<Seq<char>, Vec<V>>, key: Seq<char>, value: Vec<V>) -> Map<Seq<char>, Vec<V>> {
    if value@.len() == 0 {
        m.remove(key)
    } else if value_changed(m, key, value) {
        m.insert(key, value)
    } else {
        m
    }
}

/// Replaces `map[key]` with `value` (empty means absent) and reports whether
/// anything observable changed.
pub fn apply_map_value<V: Same>(map: &mut Vec<Keyed<Vec<V>>>, key: &str, value: Vec<V>) -> (changed: bool)
    requires
        keys_unique(old(map)@),
    ensures
        keys_unique(final(map)@),
        changed == value_changed(as_map(old(map)@), key@, value),
        as_map(final(map)@) == value_applied(as_map(old(map)@), key@, value),
{
    if value.len() == 0 {
        match remove_key(map, key) {
            Some(_) => true,
            None => false,
        }
    } else {
        let unchanged = match get_value(map, key) {
            Some(current) => same_vec(current, &value),
            None => false,
        };
        if unchanged {
            false
        } else {
            insert_value(map, crate::strings::to_owned_string(key), value);
            true
        }
    }
}

/// Whether storing `summary` under `key` changes the transcript map (a summary
/// without transcript ids stands for an absent key).
pub open spec fn summary_changed(m: Map<Seq<char>, TranscriptSummary>, key: Seq<char>, summary: TranscriptSummary) -> bool {
    if summary.transcript_ids@.len() == 0 {
        m.dom().contains(key)
    } else {
        !(m.dom().contains(key) && m[key].deep_view() == summary.deep_view())
    }
}

/// The transcript map after storing `summary` under `key`.
pub open spec fn summary_applied(m: Map<Seq<char>, TranscriptSummary>, key: Seq<char>, summary: TranscriptSummary) -> Map<Seq<char>, TranscriptSummary> {
    if summary.transcript_ids@.len() == 0 {
        m.remove(key)
    } else if summary_changed(m, key, summary) {
        m.insert(key, summary)
    } else {
        m
    }
}

/// `apply_map_value` for the transcript map: same empty-means-absent rule and
/// the same change report.
pub fn apply_transcript_summary(map: &mut Vec<Keyed<TranscriptSummary>>, key: &str, summary: TranscriptSummary) -> (changed: bool)
    requires
        keys_unique(old(map)@),
    ensures
        keys_unique(final(map)@),
        changed == summary_changed(as_map(old(map)@), key@, summary),
        as_map(final(map)@) == summary_applied(as_map(old(map)@), key@, summary),
{
    if summary.transcript_ids.len() == 0 {
        match remove_key(map, key) {
            Some(_) => true,
            None => false,
        }
    } else {
        let unchanged = match get_value(map, key) {
            Some(current) => current.same(&summary),
            None => false,
        };
        if unchanged {
            false
        } else {
            insert_value(map, crate::strings::to_owned_string(key), summary);
            true
        }
    }
}

/// Applying the same list twice reports no change the second time: rescans over
/// unchanged files stay silent.
pub proof fn lemma_apply_map_value_settles<V: DeepView>(m: Map<Seq<char>, Vec<V>>, key: Seq<char>, value: Vec<V>)
    ensures
        !value_changed(value_applied(m, key, value), key, value),
        value_applied(value_applied(m, key, value), key, value) == value_applied(m, key, value),
{
}

/// Applying the same summary twice reports no change the second time.
pub proof fn lemma_apply_transcript_summary_settles(m: Map<Seq<char>, TranscriptSummary>, key: Seq<char>, summary: TranscriptSummary)
    ensures
        !summary_changed(summary_applied(m, key, summary), key, summary),
        summary_applied(summary_applied(m, key, summary), key, summary) == summary_applied(m, key, summary),
{
}


/// The order in which a flush emits entities.
pub open spec fn entity_order() -> Seq<IndexEntity> {
    seq![
        IndexEntity::Sessions,
        IndexEntity::Docs,
        IndexEntity::Transcripts,
        IndexEntity::Tasks,
        IndexEntity::People,
        IndexEntity::Tags,
        IndexEntity::Locations,
    ]
}

fn entity_order_vec() -> (r: Vec<IndexEntity>)
    ensures
        r@ == entity_order(),
{
    let r = vec![
        IndexEntity::Sessions,
        IndexEntity::Docs,
        IndexEntity::Transcripts,
        IndexEntity::Tasks,
        IndexEntity::People,
        IndexEntity::Tags,
        IndexEntity::Locations,
    ];
    proof {
        assert(r@ =~= entity_order());
    }
    r
}

/// Every id a batch names for an entity, in arrival order.
pub open spec fn ids_for(batch: Seq<(IndexEntity, Seq<Seq<char>>)>, entity: IndexEntity) -> Seq<Seq<char>>
    decreases batch.len(),
{
    if batch.len() == 0 {
        Seq::empty()
    } else {
        ids_for(batch.drop_last(), entity) + (if batch.last().0 == entity {
            batch.last().1
        } else {
            Seq::empty()
        })
    }
}

/// The ids in first-seen order, each once.
pub open spec fn dedup_first(ids: Seq<Seq<char>>) -> Seq<Seq<char>>
    decreases ids.len(),
{
    if ids.len() == 0 {
        Seq::empty()
    } else {
        let prefix = dedup_first(ids.drop_last());
        if prefix.contains(ids.last()) {
            prefix
        } else {
            prefix.push(ids.last())
        }
    }
}

/// The batch has at least one change for the entity (even one with no ids).
pub open spec fn names_entity(batch: Seq<(IndexEntity, Seq<Seq<char>>)>, entity: IndexEntity) -> bool {
    exists|i: int| 0 <= i < batch.len() && #[trigger] batch[i].0 == entity
}

/// One event per named entity of `order`, in that order, with the entity's ids
/// deduplicated in first-seen order.
pub open spec fn coalesced(batch: Seq<(IndexEntity, Seq<Seq<char>>)>, order: Seq<IndexEntity>) -> Seq<IndexChangedView>
    decreases order.len(),
{
    if order.len() == 0 {
        Seq::empty()
    } else {
        let prefix = coalesced(batch, order.drop_last());
        if names_entity(batch, order.last()) {
            prefix.push(IndexChangedView { entity: order.last(), ids: dedup_first(ids_for(batch, order.last())) })
        } else {
            prefix
        }
    }
}

/// The ids a batch names for one entity, deduplicated in first-seen order, and
/// whether the batch names the entity at all.
fn collect_entity_ids(batch: &Vec<(IndexEntity, Vec<String>)>, entity: IndexEntity) -> (r: (bool, Vec<String>))
    ensures
        r.0 == names_entity(batch.deep_view(), entity),
        r.1.deep_view() == dedup_first(ids_for(batch.deep_view(), entity)),
{
    let ghost bv = batch.deep_view();
    let mut named = false;
    let mut ids: Vec<String> = Vec::new();
    let mut i: usize = 0;
    while i < batch.len()
        invariant
            i <= batch.len(),
            bv == batch.deep_view(),
            named == exists|k: int| 0 <= k < i && #[trigger] bv[k].0 == entity,
            ids.deep_view() == dedup_first(ids_for(bv.subrange(0, i as int), entity)),
        decreases batch.len() - i,
    {
        proof {
            assert(bv.subrange(0, i + 1).drop_last() =~= bv.subrange(0, i as int));
            assert(bv[i as int] == batch@[i as int].deep_view());
        }
        if batch[i].0 == entity {
            named = true;
            let ghost base = ids_for(bv.subrange(0, i as int), entity);
            let list = &batch[i].1;
            let mut j: usize = 0;
            while j < list.len()
                invariant
                    j <= list.len(),
                    ids.deep_view() == dedup_first(base + list.deep_view().subrange(0, j as int)),
                decreases list.len() - j,
            {
                proof {
                    let cur = base + list.deep_view().subrange(0, j + 1);
                    assert(cur.drop_last() =~= base + list.deep_view().subrange(0, j as int));
                    assert(cur.last() == list@[j as int]@);
                }
                if !vec_contains_str(&ids, list[j].as_str()) {
                    let ghost before = ids.deep_view();
                    ids.push(list[j].clone());
                    proof {
                        assert(ids.deep_view() =~= before.push(list@[j as int]@));
                    }
                }
                j = j + 1;
            }
            proof {
                assert(list.deep_view().subrange(0, list.len() as int) =~= list.deep_view());
                assert(ids_for(bv.subrange(0, i + 1), entity) =~= base + list.deep_view());
            }
        } else {
            proof {
                assert(ids_for(bv.subrange(0, i + 1), entity) =~= ids_for(bv.subrange(0, i as int), entity));
            }
        }
        proof {
            if named {
                if batch[i as int].0 == entity {
                    assert(bv[i as int].0 == entity);
                }
            }
        }
        i = i + 1;
    }
    proof {
        assert(bv.subrange(0, batch.len() as int) =~= bv);
    }
    (named, ids)
}

/// One coalesced flush: the batch grouped by entity, ids deduplicated in
/// first-seen order, one event per entity in the stable emission order.
pub fn coalesce(batch: Vec<(IndexEntity, Vec<String>)>) -> (events: Vec<IndexChanged>)
    ensures
        events.deep_view() == coalesced(batch.deep_view(), entity_order()),
{
    let order = entity_order_vec();
    let mut events: Vec<IndexChanged> = Vec::new();
    let mut k: usize = 0;
    while k < order.len()
        invariant
            k <= order.len(),
            order@ == entity_order(),
            events.deep_view() == coalesced(batch.deep_view(), order@.subrange(0, k as int)),
        decreases order.len() - k,
    {
        proof {
            assert(order@.subrange(0, k + 1).drop_last() =~= order@.subrange(0, k as int));
        }
        let entity = order[k];
        let (named, ids) = collect_entity_ids(&batch, entity);
        if named {
            let ghost before = events.deep_view();
            events.push(IndexChanged { entity, ids });
            proof {
                assert(events.deep_view() =~= before.push(IndexChangedView { entity, ids: dedup_first(ids_for(batch.deep_view(), entity)) }));
            }
        }
        k = k + 1;
    }
    proof {
        assert(order@.subrange(0, order@.len() as int) =~= order@);
    }
    events
}


proof fn lemma_dedup_first(ids: Seq<Seq<char>>)
    ensures
        dedup_first(ids).no_duplicates(),
        forall|x: Seq<char>| #[trigger] dedup_first(ids).contains(x) <==> ids.contains(x),
    decreases ids.len(),
{
    if ids.len() > 0 {
        let p = ids.drop_last();
        let l = ids.last();
        let d = dedup_first(p);
        lemma_dedup_first(p);
        assert forall|x: Seq<char>| ids.contains(x) <==> (p.contains(x) || x == l) by {
            if ids.contains(x) && x != l {
                let k = choose|k: int| 0 <= k < ids.len() && ids[k] == x;
                assert(p[k] == x);
            }
            if p.contains(x) {
                let k = choose|k: int| 0 <= k < p.len() && p[k] == x;
                assert(ids[k] == x);
            }
            if x == l {
                assert(ids[ids.len() - 1] == x);
            }
        }
        if !d.contains(l) {
            let e = d.push(l);
            assert forall|x: Seq<char>| e.contains(x) <==> (d.contains(x) || x == l) by {
                if e.contains(x) && x != l {
                    let k = choose|k: int| 0 <= k < e.len() && e[k] == x;
                    assert(d[k] == x);
                }
                if d.contains(x) {
                    let k = choose|k: int| 0 <= k < d.len() && d[k] == x;
                    assert(e[k] == x);
                }
                if x == l {
                    assert(e[e.len() - 1] == x);
                }
            }
            assert(e.no_duplicates()) by {
                assert forall|i: int, j: int| 0 <= i < e.len() && 0 <= j < e.len() && i != j implies e[i] != e[j] by {
                    if i < d.len() && j < d.len() {
                        assert(e[i] == d[i] && e[j] == d[j]);
                    } else if i < d.len() {
                        assert(e[i] == d[i]);
                    } else {
                        assert(e[j] == d[j]);
                    }
                }
            }
        }
    }
}

proof fn lemma_ids_for(batch: Seq<(IndexEntity, Seq<Seq<char>>)>, entity: IndexEntity)
    ensures
        forall|x: Seq<char>| #[trigger] ids_for(batch, entity).contains(x) <==> exists|j: int|
            0 <= j < batch.len() && batch[j].0 == entity && #[trigger] batch[j].1.contains(x),
    decreases batch.len(),
{
    if batch.len() > 0 {
        let p = batch.drop_last();
        lemma_ids_for(p, entity);
        let tail = if batch.last().0 == entity { batch.last().1 } else { Seq::empty() };
        assert forall|x: Seq<char>| #[trigger] ids_for(batch, entity).contains(x) <==> exists|j: int|
            0 <= j < batch.len() && batch[j].0 == entity && #[trigger] batch[j].1.contains(x) by {
            let all = ids_for(p, entity) + tail;
            if all.contains(x) {
                let k = choose|k: int| 0 <= k < all.len() && all[k] == x;
                if k < ids_for(p, entity).len() {
                    assert(ids_for(p, entity)[k] == x);
                    assert(ids_for(p, entity).contains(x));
                    let j = choose|j: int| 0 <= j < p.len() && p[j].0 == entity && #[trigger] p[j].1.contains(x);
                    assert(batch[j] == p[j]);
                } else {
                    assert(tail[k - ids_for(p, entity).len()] == x);
                    assert(batch[batch.len() - 1].1.contains(x));
                }
            }
            if exists|j: int| 0 <= j < batch.len() && batch[j].0 == entity && #[trigger] batch[j].1.contains(x) {
                let j = choose|j: int| 0 <= j < batch.len() && batch[j].0 == entity && #[trigger] batch[j].1.contains(x);
                if j < p.len() {
                    assert(p[j] == batch[j]);
                    assert(ids_for(p, entity).contains(x));
                    let k = choose|k: int| 0 <= k < ids_for(p, entity).len() && ids_for(p, entity)[k] == x;
                    assert(all[k] == x);
                } else {
                    let k = choose|k: int| 0 <= k < tail.len() && tail[k] == x;
                    assert(all[ids_for(p, entity).len() + k] == x);
                }
            }
        }
    }
}

proof fn lemma_coalesced(batch: Seq<(IndexEntity, Seq<Seq<char>>)>, order: Seq<IndexEntity>)
    requires
        order.no_duplicates(),
    ensures
        forall|i: int| 0 <= i < coalesced(batch, order).len() ==> {
            let ev = #[trigger] coalesced(batch, order)[i];
            &&& order.contains(ev.entity)
            &&& names_entity(batch, ev.entity)
            &&& ev.ids == dedup_first(ids_for(batch, ev.entity))
        },
        forall|i: int, j: int| 0 <= i < j < coalesced(batch, order).len() ==>
            #[trigger] coalesced(batch, order)[i].entity != #[trigger] coalesced(batch, order)[j].entity,
        forall|e: IndexEntity| order.contains(e) && names_entity(batch, e) ==> exists|i: int|
            0 <= i < coalesced(batch, order).len() && #[trigger] coalesced(batch, order)[i].entity == e,
    decreases order.len(),
{
    if order.len() > 0 {
        let p = order.drop_last();
        assert(p.no_duplicates());
        lemma_coalesced(batch, p);
        let prev = coalesced(batch, p);
        let cur = coalesced(batch, order);
        assert forall|i: int| 0 <= i < prev.len() implies #[trigger] order.contains(prev[i].entity) by {
            let k = choose|k: int| 0 <= k < p.len() && p[k] == prev[i].entity;
            assert(order[k] == p[k]);
        }
        assert forall|i: int| 0 <= i < prev.len() implies #[trigger] prev[i].entity != order.last() by {
            let k = choose|k: int| 0 <= k < p.len() && p[k] == prev[i].entity;
            assert(order[k] == p[k]);
            assert(k != order.len() - 1);
        }
        assert forall|e: IndexEntity| order.contains(e) && names_entity(batch, e) implies exists|i: int|
            0 <= i < cur.len() && #[trigger] cur[i].entity == e by {
            if e == order.last() {
                assert(cur[cur.len() - 1].entity == e);
            } else {
                let k = choose|k: int| 0 <= k < order.len() && order[k] == e;
                assert(p[k] == e);
                assert(p.contains(e));
                let i = choose|i: int| 0 <= i < prev.len() && #[trigger] prev[i].entity == e;
                assert(cur[i] == prev[i]);
            }
        }
        assert forall|i: int| 0 <= i < cur.len() implies {
            let ev = #[trigger] cur[i];
            &&& order.contains(ev.entity)
            &&& names_entity(batch, ev.entity)
            &&& ev.ids == dedup_first(ids_for(batch, ev.entity))
        } by {
            if i < prev.len() {
                assert(cur[i] == prev[i]);
            } else {
                assert(order[order.len() - 1] == cur[i].entity);
            }
        }
        assert forall|i: int, j: int| 0 <= i < j < cur.len() implies
            #[trigger] cur[i].entity != #[trigger] cur[j].entity by {
            assert(cur[i] == prev[i]);
            if j < prev.len() {
                assert(cur[j] == prev[j]);
            }
        }
    }
}

/// A flush emits each entity at most once and only for entities the batch
/// names; every named entity gets an event, and its ids are exactly the ids
/// the batch named for it, each once.
pub proof fn lemma_coalesce_groups_and_dedupes(batch: Seq<(IndexEntity, Seq<Seq<char>>)>)
    ensures
        forall|i: int, j: int| 0 <= i < j < coalesced(batch, entity_order()).len() ==>
            #[trigger] coalesced(batch, entity_order())[i].entity
                != #[trigger] coalesced(batch, entity_order())[j].entity,
        forall|e: IndexEntity| names_entity(batch, e) <==> exists|i: int|
            0 <= i < coalesced(batch, entity_order()).len()
                && #[trigger] coalesced(batch, entity_order())[i].entity == e,
        forall|i: int| 0 <= i < coalesced(batch, entity_order()).len() ==>
            (#[trigger] coalesced(batch, entity_order())[i]).ids.no_duplicates(),
        forall|i: int, x: Seq<char>| 0 <= i < coalesced(batch, entity_order()).len() ==>
            (#[trigger] coalesced(batch, entity_order())[i].ids.contains(x) <==> exists|j: int|
                0 <= j < batch.len() && batch[j].0 == coalesced(batch, entity_order())[i].entity
                    && #[trigger] batch[j].1.contains(x)),
{
    let order = entity_order();
    assert(order.no_duplicates()) by {
        assert forall|i: int, j: int| 0 <= i < order.len() && 0 <= j < order.len() && i != j implies order[i] != order[j] by {
        }
    }
    lemma_coalesced(batch, order);
    let cur = coalesced(batch, order);
    assert forall|e: IndexEntity| names_entity(batch, e) <==> exists|i: int|
        0 <= i < cur.len() && #[trigger] cur[i].entity == e by {
        let k: int = match e {
            IndexEntity::Sessions => 0,
            IndexEntity::Docs => 1,
            IndexEntity::Transcripts => 2,
            IndexEntity::Tasks => 3,
            IndexEntity::People => 4,
            IndexEntity::Tags => 5,
            IndexEntity::Locations => 6,
        };
        assert(order[k] == e);
    }
    assert forall|i: int| 0 <= i < cur.len() implies (#[trigger] cur[i]).ids.no_duplicates() by {
        lemma_dedup_first(ids_for(batch, cur[i].entity));
    }
    assert forall|i: int, x: Seq<char>| 0 <= i < cur.len() implies
        (#[trigger] cur[i].ids.contains(x) <==> exists|j: int|
            0 <= j < batch.len() && batch[j].0 == cur[i].entity && #[trigger] batch[j].1.contains(x)) by {
        lemma_dedup_first(ids_for(batch, cur[i].entity));
        lemma_ids_for(batch, cur[i].entity);
    }
}


/// One `session_list` entry: full meta plus whether the session has words.
#[derive(Debug)]
pub struct SessionListEntry {
    pub meta: SessionMeta,
    pub has_transcript_words: bool,
}

pub struct SessionListEntryView {
    pub meta: SessionMetaView,
    pub has_transcript_words: bool,
}

impl DeepView for SessionListEntry {
    type V = SessionListEntryView;

    open spec fn deep_view(&self) -> SessionListEntryView {
        SessionListEntryView { meta: self.meta.deep_view(), has_transcript_words: self.has_transcript_words }
    }
}

/// Timeline order: `(created_at, id)` ascending.
impl SortKey for SessionListEntry {
    open spec fn spec_le(&self, other: &Self) -> bool {
        str_pair_le(self.meta.created_at@, self.meta.id@, other.meta.created_at@, other.meta.id@)
    }

    proof fn lemma_le_total(a: &Self, b: &Self) {
        lemma_str_pair_le_total(a.meta.created_at@, a.meta.id@, b.meta.created_at@, b.meta.id@);
    }

    proof fn lemma_le_transitive(a: &Self, b: &Self, c: &Self) {
        lemma_str_pair_le_transitive(
            a.meta.created_at@, a.meta.id@, b.meta.created_at@, b.meta.id@, c.meta.created_at@, c.meta.id@,
        );
    }

    fn le(&self, other: &Self) -> (r: bool) {
        pair_le(self.meta.created_at.as_str(), self.meta.id.as_str(), other.meta.created_at.as_str(), other.meta.id.as_str())
    }
}

/// The slim `session_list_headers` row.
#[derive(Debug)]
pub struct SessionListHeader {
    pub id: String,
    pub title: String,
    pub created_at: String,
    pub folder: Option<String>,
    pub tags: Vec<String>,
    pub author: Option<String>,
    pub has_transcript_words: bool,
}

pub struct SessionListHeaderView {
    pub id: Seq<char>,
    pub title: Seq<char>,
    pub created_at: Seq<char>,
    pub folder: Option<Seq<char>>,
    pub tags: Seq<Seq<char>>,
    pub author: Option<Seq<char>>,
    pub has_transcript_words: bool,
}

impl DeepView for SessionListHeader {
    type V = SessionListHeaderView;

    open spec fn deep_view(&self) -> SessionListHeaderView {
        SessionListHeaderView {
            id: self.id@,
            title: self.title@,
            created_at: self.created_at@,
            folder: self.folder.deep_view(),
            tags: self.tags.deep_view(),
            author: self.author.deep_view(),
            has_transcript_words: self.has_transcript_words,
        }
    }
}

impl SortKey for SessionListHeader {
    open spec fn spec_le(&self, other: &Self) -> bool {
        str_pair_le(self.created_at@, self.id@, other.created_at@, other.id@)
    }

    proof fn lemma_le_total(a: &Self, b: &Self) {
        lemma_str_pair_le_total(a.created_at@, a.id@, b.created_at@, b.id@);
    }

    proof fn lemma_le_transitive(a: &Self, b: &Self, c: &Self) {
        lemma_str_pair_le_transitive(a.created_at@, a.id@, b.created_at@, b.id@, c.created_at@, c.id@);
    }

    fn le(&self, other: &Self) -> (r: bool) {
        pair_le(self.created_at.as_str(), self.id.as_str(), other.created_at.as_str(), other.id.as_str())
    }
}

/// `(a1, a2) <= (b1, b2)` lexicographically.
fn pair_le(a1: &str, a2: &str, b1: &str, b2: &str) -> (r: bool)
    ensures
        r == str_pair_le(a1@, a2@, b1@, b2@),
{
    if str_lt(a1, b1) {
        true
    } else if str_eq(a1, b1) {
        str_eq(a2, b2) || str_lt(a2, b2)
    } else {
        false
    }
}

/// A session's place in the active-ids order: newest first, then by id.
pub struct RecencyKey {
    pub created_at: String,
    pub id: String,
}

impl DeepView for RecencyKey {
    type V = (Seq<char>, Seq<char>);

    open spec fn deep_view(&self) -> (Seq<char>, Seq<char>) {
        (self.created_at@, self.id@)
    }
}

/// `created_at` descending, then id ascending.
pub open spec fn recency_le(a: (Seq<char>, Seq<char>), b: (Seq<char>, Seq<char>)) -> bool {
    seq_lt(b.0, a.0) || (a.0 == b.0 && seq_le(a.1, b.1))
}

/// Every earlier key comes before every later one in recency order.
pub open spec fn recency_sorted(keys: Seq<(Seq<char>, Seq<char>)>) -> bool {
    forall|i: int, j: int| 0 <= i < j < keys.len() ==> #[trigger] recency_le(keys[i], keys[j])
}

impl SortKey for RecencyKey {
    open spec fn spec_le(&self, other: &Self) -> bool {
        recency_le(self.deep_view(), other.deep_view())
    }

    proof fn lemma_le_total(a: &Self, b: &Self) {
        lemma_seq_lt_total(a.created_at@, b.created_at@);
        lemma_seq_le_total(a.id@, b.id@);
    }

    proof fn lemma_le_transitive(a: &Self, b: &Self, c: &Self) {
        lemma_seq_lt_irreflexive(a.created_at@);
        lemma_seq_lt_irreflexive(b.created_at@);
        if seq_lt(c.created_at@, b.created_at@) && seq_lt(b.created_at@, a.created_at@) {
            lemma_seq_lt_transitive(c.created_at@, b.created_at@, a.created_at@);
        }
        if a.created_at@ == b.created_at@ && b.created_at@ == c.created_at@ {
            lemma_seq_le_transitive(a.id@, b.id@, c.id@);
        }
    }

    fn le(&self, other: &Self) -> (r: bool) {
        if str_lt(other.created_at.as_str(), self.created_at.as_str()) {
            true
        } else if str_eq(self.created_at.as_str(), other.created_at.as_str()) {
            str_eq(self.id.as_str(), other.id.as_str()) || str_lt(self.id.as_str(), other.id.as_str())
        } else {
            false
        }
    }
}

/// Whether the session's transcript file holds at least one word.
pub open spec fn spec_has_words(index: VaultIndex, session_id: Seq<char>) -> bool {
    index.transcript_map().dom().contains(session_id) && index.transcript_map()[session_id].has_words
}

/// Whether the session's transcript file holds at least one word.
pub fn has_transcript_words(index: &VaultIndex, session_id: &str) -> (r: bool)
    requires
        index.wf(),
    ensures
        r == spec_has_words(*index, session_id@),
{
    match get_value(&index.transcripts, session_id) {
        Some(summary) => summary.has_words,
        None => false,
    }
}

/// A session's list entry as the index answers it.
pub open spec fn list_entry_of(index: VaultIndex, e: Keyed<SessionEntry>) -> SessionListEntryView {
    SessionListEntryView {
        meta: e.value.meta.deep_view(),
        has_transcript_words: spec_has_words(index, e.value.meta.id@),
    }
}

/// A session's header row as the index answers it.
pub open spec fn header_of(index: VaultIndex, e: Keyed<SessionEntry>) -> SessionListHeaderView {
    SessionListHeaderView {
        id: e.value.meta.id@,
        title: e.value.meta.title@,
        created_at: e.value.meta.created_at@,
        folder: e.value.meta.folder.deep_view(),
        tags: e.value.meta.tags.deep_view(),
        author: e.value.meta.author.deep_view(),
        has_transcript_words: spec_has_words(index, e.value.meta.id@),
    }
}

/// What `session_is_empty` can decide from the index alone.
#[derive(Debug, Clone, Copy, PartialEq, Eq, Structural)]
pub enum EmptinessCheck {
    /// Unknown session, or nothing in the index protects it and a directory
    /// probe is not needed.
    Empty,
    /// Title, note, transcripts, docs or tags protect the session.
    NotEmpty,
    /// Nothing in the index protects it: only loose attachments could.
    NeedsProbe,
}

/// A note whose trimmed text is empty or a lone `&nbsp;` holds nothing.
pub open spec fn note_is_blank(note: Option<Seq<char>>) -> bool {
    match note {
        None => true,
        Some(n) => unicode_trim(n).len() == 0 || unicode_trim(n) == "&nbsp;"@,
    }
}

/// The index's answer for `session_is_empty`.
pub open spec fn emptiness_of(index: VaultIndex, session_id: Seq<char>) -> EmptinessCheck {
    if !index.session_map().dom().contains(session_id) {
        EmptinessCheck::Empty
    } else {
        let entry = index.session_map()[session_id];
        if unicode_trim(entry.meta.title@).len() != 0 {
            EmptinessCheck::NotEmpty
        } else if !note_is_blank(entry.note_markdown.deep_view()) {
            EmptinessCheck::NotEmpty
        } else if (index.transcript_map().dom().contains(session_id)
            && index.transcript_map()[session_id].transcript_ids@.len() > 0)
            || (index.doc_map().dom().contains(session_id) && index.doc_map()[session_id]@.len() > 0)
            || entry.meta.tags@.len() > 0 {
            EmptinessCheck::NotEmpty
        } else {
            EmptinessCheck::NeedsProbe
        }
    }
}

/// The tracking id the session carries, top-level or inside the legacy event.
pub open spec fn carries_tracking_id(meta: SessionMetaView, tracking_id: Seq<char>) -> bool {
    meta.tracking_id == Some(tracking_id) || meta.event_tracking_id == Some(tracking_id)
}

impl VaultIndex {
    /// Number of indexed sessions.
    pub fn session_count(&self) -> (r: usize)
        requires
            self.wf(),
        ensures
            r == self.session_map().dom().len(),
    {
        proof {
            lemma_as_map(self.sessions@);
        }
        self.sessions.len()
    }

    /// The session's meta plus note; `None` for an unknown or ghost session.
    pub fn session_get(&self, session_id: &str) -> (r: Option<SessionRecord>)
        requires
            self.wf(),
        ensures
            r is Some <==> self.session_map().dom().contains(session_id@),
            r matches Some(rec) ==> rec.meta.deep_view() == self.session_map()[session_id@].meta.deep_view()
                && rec.note_markdown.deep_view() == self.session_map()[session_id@].note_markdown.deep_view(),
    {
        match get_value(&self.sessions, session_id) {
            Some(entry) => Some(SessionRecord { meta: entry.meta.deep_copy(), note_markdown: copy_opt(&entry.note_markdown) }),
            None => None,
        }
    }

    /// Any transcript of the session has at least one word.
    pub fn session_has_transcript(&self, session_id: &str) -> (r: bool)
        requires
            self.wf(),
        ensures
            r == spec_has_words(*self, session_id@),
    {
        has_transcript_words(self, session_id)
    }

    /// Every indexed session with its words flag, ordered `(created_at, id)`.
    pub fn session_list(&self) -> (r: Vec<SessionListEntry>)
        requires
            self.wf(),
        ensures
            sorted_seq(r@),
            r.deep_view().to_multiset() == self.sessions@.map_values(
                |e: Keyed<SessionEntry>| list_entry_of(*self, e),
            ).to_multiset(),
    {
        let ghost all = self.sessions@;
        let mut entries: Vec<SessionListEntry> = Vec::new();
        let mut i: usize = 0;
        while i < self.sessions.len()
            invariant
                i <= self.sessions.len(),
                self.wf(),
                all == self.sessions@,
                entries.deep_view() == all.subrange(0, i as int).map_values(
                    |e: Keyed<SessionEntry>| list_entry_of(*self, e),
                ),
            decreases self.sessions.len() - i,
        {
            let entry = &self.sessions[i].value;
            let words = has_transcript_words(self, entry.meta.id.as_str());
            let ghost before = entries.deep_view();
            entries.push(SessionListEntry { meta: entry.meta.deep_copy(), has_transcript_words: words });
            proof {
                assert(all[i as int].value == *entry);
                assert(entries.deep_view() =~= before.push(list_entry_of(*self, all[i as int])));
                assert(entries.deep_view() =~= all.subrange(0, i + 1).map_values(
                    |e: Keyed<SessionEntry>| list_entry_of(*self, e),
                ));
            }
            i = i + 1;
        }
        proof {
            assert(all.subrange(0, all.len() as int) =~= all);
        }
        crate::order::sort_records(entries)
    }

    /// `session_list` with only the fields list consumers read, same order.
    pub fn session_list_headers(&self) -> (r: Vec<SessionListHeader>)
        requires
            self.wf(),
        ensures
            sorted_seq(r@),
            r.deep_view().to_multiset() == self.sessions@.map_values(
                |e: Keyed<SessionEntry>| header_of(*self, e),
            ).to_multiset(),
    {
        let ghost all = self.sessions@;
        let mut rows: Vec<SessionListHeader> = Vec::new();
        let mut i: usize = 0;
        while i < self.sessions.len()
            invariant
                i <= self.sessions.len(),
                self.wf(),
                all == self.sessions@,
                rows.deep_view() == all.subrange(0, i as int).map_values(
                    |e: Keyed<SessionEntry>| header_of(*self, e),
                ),
            decreases self.sessions.len() - i,
        {
            let meta = &self.sessions[i].value.meta;
            let words = has_transcript_words(self, meta.id.as_str());
            let ghost before = rows.deep_view();
            rows.push(SessionListHeader {
                id: meta.id.clone(),
                title: meta.title.clone(),
                created_at: meta.created_at.clone(),
                folder: copy_opt(&meta.folder),
                tags: copy_vec(&meta.tags),
                author: copy_opt(&meta.author),
                has_transcript_words: words,
            });
            proof {
                assert(all[i as int].value.meta == *meta);
                assert(rows.deep_view() =~= before.push(header_of(*self, all[i as int])));
                assert(rows.deep_view() =~= all.subrange(0, i + 1).map_values(
                    |e: Keyed<SessionEntry>| header_of(*self, e),
                ));
            }
            i = i + 1;
        }
        proof {
            assert(all.subrange(0, all.len() as int) =~= all);
        }
        crate::order::sort_records(rows)
    }

    /// Session ids, newest `created_at` first, ties by id.
    pub fn session_ids(&self) -> (r: Vec<String>)
        requires
            self.wf(),
        ensures
            exists|keys: Seq<(Seq<char>, Seq<char>)>| {
                &&& #[trigger] recency_sorted(keys)
                &&& keys.to_multiset() == self.sessions@.map_values(
                    |e: Keyed<SessionEntry>| (e.value.meta.created_at@, e.value.meta.id@),
                ).to_multiset()
                &&& r.deep_view() == keys.map_values(|k: (Seq<char>, Seq<char>)| k.1)
            },
    {
        let ghost all = self.sessions@;
        let mut keys: Vec<RecencyKey> = Vec::new();
        let mut i: usize = 0;
        while i < self.sessions.len()
            invariant
                i <= self.sessions.len(),
                all == self.sessions@,
                keys.deep_view() == all.subrange(0, i as int).map_values(
                    |e: Keyed<SessionEntry>| (e.value.meta.created_at@, e.value.meta.id@),
                ),
            decreases self.sessions.len() - i,
        {
            let meta = &self.sessions[i].value.meta;
            let ghost before = keys.deep_view();
            keys.push(RecencyKey { created_at: meta.created_at.clone(), id: meta.id.clone() });
            proof {
                assert(all[i as int].value.meta == *meta);
                assert(keys.deep_view() =~= before.push((all[i as int].value.meta.created_at@, all[i as int].value.meta.id@)));
                assert(keys.deep_view() =~= all.subrange(0, i + 1).map_values(
                    |e: Keyed<SessionEntry>| (e.value.meta.created_at@, e.value.meta.id@),
                ));
            }
            i = i + 1;
        }
        proof {
            assert(all.subrange(0, all.len() as int) =~= all);
        }
        let sorted = crate::order::sort_records(keys);
        let ghost sk = sorted.deep_view();
        let mut ids: Vec<String> = Vec::new();
        let mut k: usize = 0;
        while k < sorted.len()
            invariant
                k <= sorted.len(),
                sk == sorted.deep_view(),
                ids.deep_view() == sk.subrange(0, k as int).map_values(|p: (Seq<char>, Seq<char>)| p.1),
            decreases sorted.len() - k,
        {
            let ghost before = ids.deep_view();
            ids.push(sorted[k].id.clone());
            proof {
                assert(sk[k as int] == sorted@[k as int].deep_view());
                assert(ids.deep_view() =~= before.push(sk[k as int].1));
                assert(ids.deep_view() =~= sk.subrange(0, k + 1).map_values(|p: (Seq<char>, Seq<char>)| p.1));
            }
            k = k + 1;
        }
        proof {
            assert(sk.subrange(0, sk.len() as int) =~= sk);
            assert forall|i: int, j: int| 0 <= i < j < sk.len() implies #[trigger] recency_le(sk[i], sk[j]) by {
                assert(sorted@[i].spec_le(&sorted@[j]));
            }
            assert(recency_sorted(sk));
        }
        ids
    }

    /// The session's docs, ordered `(sort_order, id)`.
    pub fn session_enhanced_docs(&self, session_id: &str) -> (r: Vec<EnhancedDoc>)
        requires
            self.wf(),
        ensures
            sorted_seq(r@),
            r@.to_multiset() == (if self.doc_map().dom().contains(session_id@) {
                self.doc_map()[session_id@]@
            } else {
                Seq::empty()
            }).to_multiset(),
    {
        let docs: Vec<EnhancedDoc> = match get_value(&self.docs, session_id) {
            Some(list) => {
                let mut copy: Vec<EnhancedDoc> = Vec::new();
                let mut i: usize = 0;
                while i < list.len()
                    invariant
                        i <= list.len(),
                        copy@ == list@.subrange(0, i as int),
                    decreases list.len() - i,
                {
                    copy.push(list[i].clone());
                    proof {
                        assert(copy@ =~= list@.subrange(0, i + 1));
                    }
                    i = i + 1;
                }
                proof {
                    assert(list@.subrange(0, list@.len() as int) =~= list@);
                }
                copy
            },
            None => Vec::new(),
        };
        crate::order::sort_records(docs)
    }

    /// A doc looked up by its id alone, in whichever session holds it.
    pub fn enhanced_doc_get(&self, doc_id: &str) -> (r: Option<EnhancedDoc>)
        requires
            self.wf(),
        ensures
            r matches Some(d) ==> d.id@ == doc_id@ && exists|k: Seq<char>|
                #[trigger] self.doc_map().dom().contains(k) && self.doc_map()[k]@.contains(d),
            r is None <==> !exists|k: Seq<char>, j: int|
                #[trigger] self.doc_map().dom().contains(k) && 0 <= j < self.doc_map()[k]@.len()
                    && #[trigger] self.doc_map()[k]@[j].id@ == doc_id@,
    {
        proof {
            lemma_as_map(self.docs@);
        }
        let mut i: usize = 0;
        while i < self.docs.len()
            invariant
                i <= self.docs.len(),
                self.wf(),
                forall|a: int, j: int| 0 <= a < i && 0 <= j < self.docs@[a].value@.len() ==>
                    #[trigger] self.docs@[a].value@[j].id@ != doc_id@,
            decreases self.docs.len() - i,
        {
            let list = &self.docs[i].value;
            let mut j: usize = 0;
            while j < list.len()
                invariant
                    j <= list.len(),
                    i < self.docs.len(),
                    self.wf(),
                    *list == self.docs@[i as int].value,
                    forall|b: int| 0 <= b < j ==> #[trigger] list@[b].id@ != doc_id@,
                decreases list.len() - j,
            {
                if str_eq(list[j].id.as_str(), doc_id) {
                    proof {
                        lemma_as_map(self.docs@);
                        let k = self.docs@[i as int].key@;
                        assert(self.doc_map().dom().contains(k));
                        assert(self.doc_map()[k]@[j as int] == list@[j as int]);
                    }
                    return Some(list[j].clone());
                }
                j = j + 1;
            }
            i = i + 1;
        }
        proof {
            assert forall|k: Seq<char>, j: int|
                #[trigger] self.doc_map().dom().contains(k) && 0 <= j < self.doc_map()[k]@.len()
                    implies #[trigger] self.doc_map()[k]@[j].id@ != doc_id@ by {
                let a = choose|a: int| 0 <= a < self.docs@.len() && self.docs@[a].key@ == k;
                assert(self.doc_map()[k] == self.docs@[a].value);
            }
        }
        None
    }

    /// Which session's transcript file holds this transcript id.
    pub fn transcript_session_id(&self, transcript_id: &str) -> (r: Option<String>)
        requires
            self.wf(),
        ensures
            r matches Some(s) ==> self.transcript_map().dom().contains(s@)
                && self.transcript_map()[s@].transcript_ids.deep_view().contains(transcript_id@),
            r is None <==> !exists|k: Seq<char>| #[trigger] self.transcript_map().dom().contains(k)
                && self.transcript_map()[k].transcript_ids.deep_view().contains(transcript_id@),
    {
        proof {
            lemma_as_map(self.transcripts@);
        }
        let mut i: usize = 0;
        while i < self.transcripts.len()
            invariant
                i <= self.transcripts.len(),
                self.wf(),
                forall|a: int| 0 <= a < i ==> !(#[trigger] self.transcripts@[a]).value.transcript_ids.deep_view().contains(transcript_id@),
            decreases self.transcripts.len() - i,
        {
            if vec_contains_str(&self.transcripts[i].value.transcript_ids, transcript_id) {
                proof {
                    lemma_as_map(self.transcripts@);
                    let k = self.transcripts@[i as int].key@;
                    assert(self.transcript_map().dom().contains(k));
                }
                return Some(self.transcripts[i].key.clone());
            }
            i = i + 1;
        }
        proof {
            assert forall|k: Seq<char>| #[trigger] self.transcript_map().dom().contains(k) implies
                !self.transcript_map()[k].transcript_ids.deep_view().contains(transcript_id@) by {
                let a = choose|a: int| 0 <= a < self.transcripts@.len() && self.transcripts@[a].key@ == k;
                assert(self.transcript_map()[k] == self.transcripts@[a].value);
            }
        }
        None
    }

    /// What the index alone says about whether tab-close cleanup may discard
    /// the session; `NeedsProbe` leaves the answer to a directory probe.
    pub fn session_emptiness(&self, session_id: &str) -> (r: EmptinessCheck)
        requires
            self.wf(),
        ensures
            r == emptiness_of(*self, session_id@),
    {
        let entry = match get_value(&self.sessions, session_id) {
            Some(entry) => entry,
            None => return EmptinessCheck::Empty,
        };
        let title = trim(entry.meta.title.as_str());
        if title.unicode_len() != 0 {
            return EmptinessCheck::NotEmpty;
        }
        match &entry.note_markdown {
            Some(note) => {
                let trimmed = trim(note.as_str());
                let nbsp = "&nbsp;";
                if trimmed.unicode_len() != 0 && !str_eq(trimmed.as_str(), nbsp) {
                    return EmptinessCheck::NotEmpty;
                }
            },
            None => {},
        }
        let transcript_count = match get_value(&self.transcripts, session_id) {
            Some(summary) => summary.transcript_ids.len(),
            None => 0,
        };
        let enhanced_count = match get_value(&self.docs, session_id) {
            Some(docs) => docs.len(),
            None => 0,
        };
        if transcript_count > 0 || enhanced_count > 0 || entry.meta.tags.len() > 0 {
            EmptinessCheck::NotEmpty
        } else {
            EmptinessCheck::NeedsProbe
        }
    }

    /// The first session (by `(created_at, id)`) carrying this tracking id.
    pub fn session_find_by_tracking_id(&self, tracking_id: &str) -> (r: Option<SessionMeta>)
        requires
            self.wf(),
        ensures
            r is None <==> !exists|k: Seq<char>| #[trigger] self.session_map().dom().contains(k)
                && carries_tracking_id(self.session_map()[k].meta.deep_view(), tracking_id@),
            r matches Some(m) ==> carries_tracking_id(m.deep_view(), tracking_id@) && (exists|k: Seq<char>|
                #[trigger] self.session_map().dom().contains(k) && self.session_map()[k].meta.deep_view() == m.deep_view())
                && forall|k: Seq<char>| #[trigger] self.session_map().dom().contains(k)
                    && carries_tracking_id(self.session_map()[k].meta.deep_view(), tracking_id@) ==> str_pair_le(
                    m.created_at@, m.id@, self.session_map()[k].meta.created_at@, self.session_map()[k].meta.id@,
                ),
    {
        proof {
            lemma_as_map(self.sessions@);
        }
        let mut best: Option<usize> = None;
        let mut i: usize = 0;
        while i < self.sessions.len()
            invariant
                i <= self.sessions.len(),
                self.wf(),
                best matches Some(b) ==> b < i && carries_tracking_id(self.sessions@[b as int].value.meta.deep_view(), tracking_id@)
                    && forall|a: int| 0 <= a < i && carries_tracking_id((#[trigger] self.sessions@[a]).value.meta.deep_view(), tracking_id@)
                        ==> str_pair_le(self.sessions@[b as int].value.meta.created_at@, self.sessions@[b as int].value.meta.id@,
                            self.sessions@[a].value.meta.created_at@, self.sessions@[a].value.meta.id@),
                best is None ==> forall|a: int| 0 <= a < i ==> !carries_tracking_id((#[trigger] self.sessions@[a]).value.meta.deep_view(), tracking_id@),
            decreases self.sessions.len() - i,
        {
            let meta = &self.sessions[i].value.meta;
            let carries = match &meta.tracking_id {
                Some(t) => str_eq(t.as_str(), tracking_id),
                None => false,
            } || match &meta.event_tracking_id {
                Some(t) => str_eq(t.as_str(), tracking_id),
                None => false,
            };
            if carries {
                match best {
                    None => {
                        best = Some(i);
                    },
                    Some(b) => {
                        let cur = &self.sessions[b].value.meta;
                        if !pair_le(cur.created_at.as_str(), cur.id.as_str(), meta.created_at.as_str(), meta.id.as_str()) {
                            proof {
                                let bm = self.sessions@[b as int].value.meta;
                                lemma_str_pair_le_total(bm.created_at@, bm.id@, meta.created_at@, meta.id@);
                                assert forall|a: int| 0 <= a < i + 1 && carries_tracking_id((#[trigger] self.sessions@[a]).value.meta.deep_view(), tracking_id@)
                                    implies str_pair_le(meta.created_at@, meta.id@,
                                        self.sessions@[a].value.meta.created_at@, self.sessions@[a].value.meta.id@) by {
                                    if a < i {
                                        let am = self.sessions@[a].value.meta;
                                        lemma_str_pair_le_transitive(meta.created_at@, meta.id@, bm.created_at@, bm.id@, am.created_at@, am.id@);
                                    } else {
                                        lemma_seq_lt_irreflexive(meta.created_at@);
                                    }
                                }
                            }
                            best = Some(i);
                        }
                    },
                }
            }
            i = i + 1;
        }
        match best {
            Some(b) => {
                proof {
                    let m = self.sessions@[b as int].value.meta;
                    assert(self.session_map().dom().contains(self.sessions@[b as int].key@));
                    assert(self.session_map()[self.sessions@[b as int].key@] == self.sessions@[b as int].value);
                    assert forall|k: Seq<char>| #[trigger] self.session_map().dom().contains(k)
                        && carries_tracking_id(self.session_map()[k].meta.deep_view(), tracking_id@) implies str_pair_le(
                        m.created_at@, m.id@, self.session_map()[k].meta.created_at@, self.session_map()[k].meta.id@) by {
                        let a = choose|a: int| 0 <= a < self.sessions@.len() && self.sessions@[a].key@ == k;
                        assert(self.session_map()[k] == self.sessions@[a].value);
                    }
                }
                Some(self.sessions[b].value.meta.deep_copy())
            },
            None => {
                proof {
                    assert forall|k: Seq<char>| #[trigger] self.session_map().dom().contains(k) implies
                        !carries_tracking_id(self.session_map()[k].meta.deep_view(), tracking_id@) by {
                        let a = choose|a: int| 0 <= a < self.sessions@.len() && self.sessions@[a].key@ == k;
                        assert(self.session_map()[k] == self.sessions@[a].value);
                    }
                }
                None
            },
        }
    }
}


/// A record stored in the index under its own id.
pub trait HasId: Same + DeepCopy {
    spec fn spec_id(&self) -> Seq<char>;

    fn id_str(&self) -> (r: &str)
        ensures
            r@ == self.spec_id(),
    ;
}

impl HasId for PersonItem {
    open spec fn spec_id(&self) -> Seq<char> {
        self.id@
    }

    fn id_str(&self) -> (r: &str) {
        self.id.as_str()
    }
}

impl HasId for TagItem {
    open spec fn spec_id(&self) -> Seq<char> {
        self.id@
    }

    fn id_str(&self) -> (r: &str) {
        self.id.as_str()
    }
}

/// A list keyed by id; a later record with the same id wins.
pub open spec fn by_id<V: HasId>(items: Seq<V>) -> Map<Seq<char>, V>
    decreases items.len(),
{
    if items.len() == 0 {
        Map::empty()
    } else {
        by_id(items.drop_last()).insert(items.last().spec_id(), items.last())
    }
}

/// The key is present on one side only, or holds different records.
pub open spec fn differs<V: DeepView>(a: Map<Seq<char>, V>, b: Map<Seq<char>, V>, k: Seq<char>) -> bool {
    (a.dom().contains(k) || b.dom().contains(k)) && !(a.dom().contains(k) && b.dom().contains(k)
        && a[k].deep_view() == b[k].deep_view())
}

/// Every key whose record was added, removed or changed.
pub open spec fn changed_keys<V: DeepView>(a: Map<Seq<char>, V>, b: Map<Seq<char>, V>) -> Set<Seq<char>> {
    Set::new(|k: Seq<char>| differs(a, b, k))
}

/// Replaces a keyed map with a freshly read list and returns the ids whose
/// record changed, sorted and each once.
pub fn replace_by_id<V: HasId>(entries: &mut Vec<Keyed<V>>, items: Vec<V>) -> (changed: Vec<String>)
    requires
        keys_unique(old(entries)@),
    ensures
        keys_unique(final(entries)@),
        as_map(final(entries)@) == by_id(items@),
        strictly_sorted(changed.deep_view()),
        changed.deep_view().to_set() == changed_keys(as_map(old(entries)@), by_id(items@)),
{
    let ghost all = items@;
    let ghost n = all.len();
    let mut rest = items;
    let mut fresh: Vec<Keyed<V>> = Vec::new();
    while rest.len() > 0
        invariant
            n == all.len(),
            rest.len() <= n,
            rest@ == all.subrange(n - rest.len(), n as int),
            keys_unique(fresh@),
            as_map(fresh@) == by_id(all.subrange(0, n - rest.len())),
        decreases rest.len(),
    {
        let ghost done = n - rest.len();
        let item = rest.remove(0);
        proof {
            assert(all[done] == item);
            assert(all.subrange(0, done + 1).drop_last() =~= all.subrange(0, done));
            assert(rest@ =~= all.subrange(n - rest.len(), n as int));
        }
        let key = crate::strings::to_owned_string(item.id_str());
        insert_value(&mut fresh, key, item);
    }
    proof {
        assert(all.subrange(0, n as int) =~= all);
        lemma_as_map(fresh@);
        lemma_as_map(entries@);
    }
    let ghost a = as_map(entries@);
    let ghost b = as_map(fresh@);
    let mut candidates: Vec<String> = Vec::new();
    let mut i: usize = 0;
    while i < entries.len()
        invariant
            i <= entries.len(),
            keys_unique(entries@),
            keys_unique(fresh@),
            a == as_map(entries@),
            b == as_map(fresh@),
            forall|x: Seq<char>| #[trigger] candidates.deep_view().contains(x) <==> exists|j: int|
                0 <= j < i && entries@[j].key@ == x && differs(a, b, x),
        decreases entries.len() - i,
    {
        proof {
            lemma_as_map(entries@);
        }
        let key = &entries[i].key;
        let same = match get_value(&fresh, key.as_str()) {
            Some(v) => v.same(&entries[i].value),
            None => false,
        };
        let ghost before = candidates.deep_view();
        if !same {
            candidates.push(key.clone());
        }
        proof {
            assert(a[entries@[i as int].key@] == entries@[i as int].value);
            assert forall|x: Seq<char>| #[trigger] candidates.deep_view().contains(x) <==> exists|j: int|
                0 <= j < i + 1 && entries@[j].key@ == x && differs(a, b, x) by {
                if !same {
                    assert(candidates.deep_view() =~= before.push(key@));
                    if x == key@ {
                        assert(candidates.deep_view()[before.len() as int] == x);
                    }
                    if before.contains(x) {
                        let t = choose|t: int| 0 <= t < before.len() && before[t] == x;
                        assert(candidates.deep_view()[t] == x);
                    }
                    if candidates.deep_view().contains(x) && x != key@ {
                        let t = choose|t: int| 0 <= t < candidates.deep_view().len() && candidates.deep_view()[t] == x;
                        assert(before[t] == x);
                    }
                } else {
                    assert(candidates.deep_view() == before);
                }
            }
        }
        i = i + 1;
    }
    let ghost from_old = candidates.deep_view();
    let mut k: usize = 0;
    while k < fresh.len()
        invariant
            k <= fresh.len(),
            keys_unique(entries@),
            keys_unique(fresh@),
            a == as_map(entries@),
            b == as_map(fresh@),
            forall|x: Seq<char>| #[trigger] candidates.deep_view().contains(x) <==> (from_old.contains(x)
                || exists|j: int| 0 <= j < k && fresh@[j].key@ == x && !a.dom().contains(x)),
        decreases fresh.len() - k,
    {
        proof {
            lemma_as_map(entries@);
            lemma_as_map(fresh@);
        }
        let key = &fresh[k].key;
        let known = match get_value(&*entries, key.as_str()) {
            Some(_) => true,
            None => false,
        };
        let ghost before = candidates.deep_view();
        if !known {
            candidates.push(key.clone());
        }
        proof {
            assert forall|x: Seq<char>| #[trigger] candidates.deep_view().contains(x) <==> (from_old.contains(x)
                || exists|j: int| 0 <= j < k + 1 && fresh@[j].key@ == x && !a.dom().contains(x)) by {
                if !known {
                    assert(candidates.deep_view() =~= before.push(key@));
                    if x == key@ {
                        assert(candidates.deep_view()[before.len() as int] == x);
                    }
                    if before.contains(x) {
                        let t = choose|t: int| 0 <= t < before.len() && before[t] == x;
                        assert(candidates.deep_view()[t] == x);
                    }
                    if candidates.deep_view().contains(x) && x != key@ {
                        let t = choose|t: int| 0 <= t < candidates.deep_view().len() && candidates.deep_view()[t] == x;
                        assert(before[t] == x);
                    }
                } else {
                    assert(candidates.deep_view() == before);
                }
            }
        }
        k = k + 1;
    }
    proof {
        lemma_as_map(entries@);
        lemma_as_map(fresh@);
        assert(candidates.deep_view().to_set() =~= changed_keys(a, b)) by {
            assert forall|x: Seq<char>| candidates.deep_view().contains(x) <==> differs(a, b, x) by {
                if differs(a, b, x) {
                    if a.dom().contains(x) {
                        let j = choose|j: int| 0 <= j < entries@.len() && entries@[j].key@ == x;
                        assert(from_old.contains(x));
                    } else {
                        let j = choose|j: int| 0 <= j < fresh@.len() && fresh@[j].key@ == x;
                        assert(fresh@[j].key@ == x);
                    }
                }
            }
        }
    }
    let changed = crate::meta::sort_dedup_names(candidates);
    *entries = fresh;
    changed
}

impl VaultIndex {
    /// Replaces the people map with a freshly read `people.json` list and
    /// returns the ids whose record changed, sorted.
    pub fn replace_people(&mut self, people: Vec<PersonItem>) -> (changed: Vec<String>)
        requires
            old(self).wf(),
        ensures
            final(self).wf(),
            final(self).person_map() == by_id(people@),
            strictly_sorted(changed.deep_view()),
            changed.deep_view().to_set() == changed_keys(old(self).person_map(), by_id(people@)),
            final(self).sessions == old(self).sessions,
            final(self).docs == old(self).docs,
            final(self).transcripts == old(self).transcripts,
            final(self).tasks == old(self).tasks,
            final(self).tags == old(self).tags,
            final(self).summaries == old(self).summaries,
    {
        replace_by_id(&mut self.people, people)
    }

    /// Replaces the tags map with a freshly read `tags.json` list and returns
    /// the ids whose record changed, sorted.
    pub fn replace_tags(&mut self, tags: Vec<TagItem>) -> (changed: Vec<String>)
        requires
            old(self).wf(),
        ensures
            final(self).wf(),
            final(self).tag_map() == by_id(tags@),
            strictly_sorted(changed.deep_view()),
            changed.deep_view().to_set() == changed_keys(old(self).tag_map(), by_id(tags@)),
            final(self).sessions == old(self).sessions,
            final(self).docs == old(self).docs,
            final(self).transcripts == old(self).transcripts,
            final(self).tasks == old(self).tasks,
            final(self).people == old(self).people,
            final(self).summaries == old(self).summaries,
    {
        replace_by_id(&mut self.tags, tags)
    }
}


impl VaultIndex {
    /// A session whose docs hold a doc with this id (the index's owner of an
    /// `enhanced_note` task source); `None` when no session does.
    pub fn session_owning_doc(&self, doc_id: &str) -> (r: Option<String>)
        requires
            self.wf(),
        ensures
            r matches Some(s) ==> self.doc_map().dom().contains(s@) && exists|j: int|
                0 <= j < self.doc_map()[s@]@.len() && #[trigger] self.doc_map()[s@]@[j].id@ == doc_id@,
            r is None <==> !exists|k: Seq<char>, j: int|
                #[trigger] self.doc_map().dom().contains(k) && 0 <= j < self.doc_map()[k]@.len()
                    && #[trigger] self.doc_map()[k]@[j].id@ == doc_id@,
    {
        proof {
            lemma_as_map(self.docs@);
        }
        let mut i: usize = 0;
        while i < self.docs.len()
            invariant
                i <= self.docs.len(),
                self.wf(),
                forall|a: int, j: int| 0 <= a < i && 0 <= j < self.docs@[a].value@.len() ==>
                    #[trigger] self.docs@[a].value@[j].id@ != doc_id@,
            decreases self.docs.len() - i,
        {
            let list = &self.docs[i].value;
            let mut j: usize = 0;
            while j < list.len()
                invariant
                    j <= list.len(),
                    i < self.docs.len(),
                    self.wf(),
                    *list == self.docs@[i as int].value,
                    forall|b: int| 0 <= b < j ==> #[trigger] list@[b].id@ != doc_id@,
                decreases list.len() - j,
            {
                if str_eq(list[j].id.as_str(), doc_id) {
                    proof {
                        lemma_as_map(self.docs@);
                        let k = self.docs@[i as int].key@;
                        assert(self.doc_map().dom().contains(k));
                        assert(self.doc_map()[k]@[j as int] == list@[j as int]);
                    }
                    return Some(self.docs[i].key.clone());
                }
                j = j + 1;
            }
            i = i + 1;
        }
        proof {
            assert forall|k: Seq<char>, j: int|
                #[trigger] self.doc_map().dom().contains(k) && 0 <= j < self.doc_map()[k]@.len()
                    implies #[trigger] self.doc_map()[k]@[j].id@ != doc_id@ by {
                let a = choose|a: int| 0 <= a < self.docs@.len() && self.docs@[a].key@ == k;
                assert(self.doc_map()[k] == self.docs@[a].value);
            }
        }
        None
    }
}


/// Deleting a session clears every trace of it: deleting it again finds
/// nothing to remove and notifies nothing.
pub proof fn lemma_remove_session_forgets(before: VaultIndex, after: VaultIndex, id: Seq<char>)
    requires
        after.session_map() == before.session_map().remove(id),
        after.doc_map() == before.doc_map().remove(id),
        after.transcript_map() == before.transcript_map().remove(id),
        after.task_map() == before.task_map().remove(id),
    ensures
        removed_entities(after, id).len() == 0,
{
    assert(removed_entities(after, id) =~= Seq::<IndexEntity>::empty());
}

} // verus!
