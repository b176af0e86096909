//! File -> index reconciliation: what a rescan of one session does to the
//! index given what its files read back as, the report it keeps, which stale
//! ids a full rebuild prunes, and how the location catalog is swapped.
//!
//! The hard rule throughout: corruption never looks like deletion. A file that
//! fails to read leaves its index entry untouched; only a confirmed-absent file
//! removes one.

use vstd::prelude::*;

use crate::enhanced::EnhancedDoc;
use crate::error::{StoreError, error_text};
use crate::index::{
    IndexEntity, SessionEntry, SessionEntryView, TranscriptSummary, VaultIndex, apply_map_value,
    apply_transcript_summary, summary_applied, summary_changed, value_applied, value_changed,
};
use crate::keyed::{Keyed, as_map, get_value, insert_value, keys_unique, lemma_as_map, remove_key};
use crate::meta::SessionMeta;
use crate::record::{DeepCopy, Same, copy_opt};
use crate::strings::{concat, str_eq, to_owned_string};
use crate::tasks::TaskItem;

verus! {

/// Summary of a rebuild or refresh pass: counts of what was derived from files
/// this pass, folder ids with content but no metadata, and every error met.
#[derive(Debug)]
pub struct RebuildReport {
    pub sessions: usize,
    /// Documents read this pass: the note and every enhanced doc.
    pub notes: usize,
    pub transcripts: usize,
    pub ghost_sessions: Vec<String>,
    pub errors: Vec<String>,
}

impl RebuildReport {
    /// An empty report.
    pub fn new() -> (r: RebuildReport)
        ensures
            r.sessions == 0,
            r.notes == 0,
            r.transcripts == 0,
            r.ghost_sessions@.len() == 0,
            r.errors@.len() == 0,
    {
        RebuildReport { sessions: 0, notes: 0, transcripts: 0, ghost_sessions: Vec::new(), errors: Vec::new() }
    }

    /// Folds a per-session sub-report into this one (scan order is kept by
    /// merging in that order).
    pub fn merge(&mut self, sub: RebuildReport)
        requires
            old(self).sessions + sub.sessions <= usize::MAX,
            old(self).notes + sub.notes <= usize::MAX,
            old(self).transcripts + sub.transcripts <= usize::MAX,
        ensures
            final(self).sessions == old(self).sessions + sub.sessions,
            final(self).notes == old(self).notes + sub.notes,
            final(self).transcripts == old(self).transcripts + sub.transcripts,
            final(self).ghost_sessions@ == old(self).ghost_sessions@ + sub.ghost_sessions@,
            final(self).errors@ == old(self).errors@ + sub.errors@,
    {
        let RebuildReport { sessions, notes, transcripts, ghost_sessions, errors } = sub;
        let mut ghost_sessions = ghost_sessions;
        let mut errors = errors;
        self.sessions = self.sessions + sessions;
        self.notes = self.notes + notes;
        self.transcripts = self.transcripts + transcripts;
        self.ghost_sessions.append(&mut ghost_sessions);
        self.errors.append(&mut errors);
    }
}

/// The line an error leaves in a report.
pub open spec fn error_line(context: Seq<char>, err: StoreError) -> Seq<char> {
    context + ": "@ + error_text(err)
}

/// Logs an error line and keeps the first raw error of the pass, so a caller
/// can hand back the real variant.
pub fn record_error(errors: &mut Vec<String>, first: &mut Option<StoreError>, context: &str, err: StoreError)
    ensures
        final(errors)@.len() == old(errors)@.len() + 1,
        final(errors)@.subrange(0, old(errors)@.len() as int) == old(errors)@,
        final(errors)@.last()@ == error_line(context@, err),
        *final(first) == if old(first).is_some() { *old(first) } else { Some(err) },
{
    let head = concat(context, ": ");
    let text = err.to_string();
    errors.push(concat(head.as_str(), text.as_str()));
    proof {
        assert(errors@.subrange(0, old(errors)@.len() as int) =~= old(errors)@);
    }
    if first.is_none() {
        *first = Some(err);
    }
}

/// What one session's files read back as in a rescan. The metadata is read
/// already (a missing `_meta.json` takes the removal path instead); every
/// other artifact is either its content or the error that kept it unread.
pub struct SessionReads {
    pub meta: Result<SessionMeta, StoreError>,
    /// The note file's content, `None` when there is none.
    pub note: Result<Option<String>, StoreError>,
    /// The `enhanced/` listing: each doc id with its parse outcome.
    pub docs: Result<Vec<(String, Result<EnhancedDoc, StoreError>)>, StoreError>,
    pub transcripts: Result<TranscriptSummary, StoreError>,
    /// `None` when the tasks file could not be read or the directory resolved.
    pub tasks: Option<Vec<TaskItem>>,
}

/// The failures of the doc files, in listing order, each with its context.
pub open spec fn doc_failures(id: Seq<char>, files: Seq<(String, Result<EnhancedDoc, StoreError>)>) -> Seq<(Seq<char>, StoreError)>
    decreases files.len(),
{
    if files.len() == 0 {
        Seq::empty()
    } else {
        doc_failures(id, files.drop_last()) + match files.last().1 {
            Ok(_) => Seq::empty(),
            Err(e) => seq![(id + ": enhanced/"@ + files.last().0@ + ".md"@, e)],
        }
    }
}

/// Every failure a rescan of one session meets, in the order they are logged.
pub open spec fn refresh_failures(id: Seq<char>, reads: SessionReads) -> Seq<(Seq<char>, StoreError)> {
    (match reads.meta {
        Ok(_) => Seq::empty(),
        Err(e) => seq![(id + ": _meta.json"@, e)],
    }) + (match reads.note {
        Ok(_) => Seq::empty(),
        Err(e) => seq![(id + ": notes.md"@, e)],
    }) + (match reads.docs {
        Ok(files) => doc_failures(id, files@),
        Err(e) => seq![(id, e)],
    }) + (match reads.transcripts {
        Ok(_) => Seq::empty(),
        Err(e) => seq![(id + ": transcript.json"@, e)],
    })
}

/// The report lines of a list of failures.
pub open spec fn failure_lines(failures: Seq<(Seq<char>, StoreError)>) -> Seq<Seq<char>> {
    failures.map_values(|f: (Seq<char>, StoreError)| error_line(f.0, f.1))
}

/// The first error of a pass: an earlier one stays.
pub open spec fn first_after(first: Option<StoreError>, failures: Seq<(Seq<char>, StoreError)>) -> Option<StoreError> {
    if first.is_some() {
        first
    } else if failures.len() > 0 {
        Some(failures[0].1)
    } else {
        None
    }
}

/// The last doc with this id among the session's current docs.
pub open spec fn previous_doc(previous: Seq<EnhancedDoc>, id: Seq<char>) -> Option<EnhancedDoc>
    decreases previous.len(),
{
    if previous.len() == 0 {
        None
    } else if previous.last().id@ == id {
        Some(previous.last())
    } else {
        previous_doc(previous.drop_last(), id)
    }
}

/// The docs a successful listing yields: every parsed doc, and for a doc that
/// fails to parse, its previous entry if it had one.
pub open spec fn collected_docs(files: Seq<(String, Result<EnhancedDoc, StoreError>)>, previous: Seq<EnhancedDoc>) -> Seq<EnhancedDoc>
    decreases files.len(),
{
    if files.len() == 0 {
        Seq::empty()
    } else {
        collected_docs(files.drop_last(), previous) + match files.last().1 {
            Ok(doc) => seq![doc],
            Err(_) => match previous_doc(previous, files.last().0@) {
                Some(d) => seq![d],
                None => Seq::empty(),
            },
        }
    }
}

/// How many doc files parsed.
pub open spec fn parsed_count(files: Seq<(String, Result<EnhancedDoc, StoreError>)>) -> nat
    decreases files.len(),
{
    if files.len() == 0 {
        0
    } else {
        parsed_count(files.drop_last()) + if files.last().1 is Ok { 1nat } else { 0nat }
    }
}

/// The documents a rescan counts: the note, when present, and every parsed doc.
pub open spec fn notes_read(reads: SessionReads) -> nat {
    (if reads.note matches Ok(Some(_)) { 1nat } else { 0nat }) + match reads.docs {
        Ok(files) => parsed_count(files@),
        Err(_) => 0,
    }
}

/// The session entry a rescan stores, when the metadata read.
pub open spec fn refreshed_entry(old: Map<Seq<char>, SessionEntry>, id: Seq<char>, meta: SessionMeta, note: Result<Option<String>, StoreError>) -> SessionEntryView {
    SessionEntryView {
        meta: meta.deep_view(),
        note_markdown: match note {
            Ok(n) => n.deep_view(),
            Err(_) => if old.dom().contains(id) { old[id].note_markdown.deep_view() } else { None },
        },
    }
}

/// The sessions map after a rescan, and whether it changed.
pub open spec fn sessions_refreshed(
    old: Map<Seq<char>, SessionEntry>,
    new: Map<Seq<char>, SessionEntry>,
    id: Seq<char>,
    meta: Result<SessionMeta, StoreError>,
    note: Result<Option<String>, StoreError>,
    changed: bool,
) -> bool {
    match meta {
        Ok(meta) => {
            let e = refreshed_entry(old, id, meta, note);
            &&& changed == !(old.dom().contains(id) && old[id].deep_view() == e)
            &&& new.dom().contains(id)
            &&& new[id].deep_view() == e
            &&& new.remove(id) == old.remove(id)
        },
        Err(_) => match note {
            Ok(Some(n)) => if old.dom().contains(id) && old[id].note_markdown.deep_view() != Some(n@) {
                &&& changed
                &&& new.dom().contains(id)
                &&& new[id].deep_view() == SessionEntryView { meta: old[id].meta.deep_view(), note_markdown: Some(n@) }
                &&& new.remove(id) == old.remove(id)
            } else {
                !changed && new == old
            },
            _ => !changed && new == old,
        },
    }
}

/// Whether storing the list `value` under `key` changes what the map holds.
pub open spec fn list_changed<V: DeepView>(old: Map<Seq<char>, Vec<V>>, key: Seq<char>, value: Seq<V>) -> bool {
    if value.len() == 0 {
        old.dom().contains(key)
    } else {
        !(old.dom().contains(key) && old[key].deep_view() == Seq::new(value.len(), |i: int| value[i].deep_view()))
    }
}

/// The map after storing the list `value` under `key` (empty means absent).
pub open spec fn list_stored<V: DeepView>(old: Map<Seq<char>, Vec<V>>, key: Seq<char>, value: Seq<V>, new: Map<Seq<char>, Vec<V>>) -> bool {
    if value.len() == 0 {
        new == old.remove(key)
    } else if list_changed(old, key, value) {
        &&& new.dom().contains(key)
        &&& new[key]@ == value
        &&& new.remove(key) == old.remove(key)
    } else {
        new == old
    }
}

proof fn lemma_value_applied_stores<V: DeepView>(old: Map<Seq<char>, Vec<V>>, key: Seq<char>, v: Vec<V>)
    ensures
        value_changed(old, key, v) == list_changed(old, key, v@),
        list_stored(old, key, v@, value_applied(old, key, v)),
{
    assert(v.deep_view() =~= Seq::new(v@.len(), |i: int| v@[i].deep_view()));
    if v@.len() > 0 && value_changed(old, key, v) {
        assert(old.insert(key, v).remove(key) =~= old.remove(key));
    }
}

/// Rescans the session's entry: a readable `_meta.json` replaces the meta
/// (the note too when it read, else the old note stays); with unreadable
/// metadata only a readable note is refreshed. Returns whether the entry
/// changed.
fn refresh_entry(index: &mut VaultIndex, id: &str, meta: Result<SessionMeta, StoreError>, note: &Result<Option<String>, StoreError>) -> (changed: bool)
    requires
        old(index).wf(),
    ensures
        final(index).wf(),
        sessions_refreshed(old(index).session_map(), final(index).session_map(), id@, meta, *note, changed),
        final(index).docs == old(index).docs,
        final(index).transcripts == old(index).transcripts,
        final(index).tasks == old(index).tasks,
        final(index).people == old(index).people,
        final(index).tags == old(index).tags,
        final(index).summaries == old(index).summaries,
{
    let ghost om = old(index).session_map();
    proof {
        lemma_as_map(index.sessions@);
    }
    match meta {
        Ok(new_meta) => {
            let ghost mg = new_meta;
            let note_markdown = match note {
                Ok(n) => copy_opt(n),
                Err(_) => match get_value(&index.sessions, id) {
                    Some(entry) => copy_opt(&entry.note_markdown),
                    None => None,
                },
            };
            let entry = SessionEntry { meta: new_meta, note_markdown };
            let unchanged = match get_value(&index.sessions, id) {
                Some(current) => current.same(&entry),
                None => false,
            };
            if unchanged {
                proof {
                    assert(index.session_map().remove(id@) =~= om.remove(id@));
                }
                false
            } else {
                let ghost eg = entry;
                insert_value(&mut index.sessions, to_owned_string(id), entry);
                proof {
                    assert(index.session_map().remove(id@) =~= om.remove(id@));
                }
                true
            }
        },
        Err(_) => match note {
            Ok(Some(n)) => {
                let differs = match get_value(&index.sessions, id) {
                    Some(entry) => match &entry.note_markdown {
                        Some(current) => !str_eq(current.as_str(), n.as_str()),
                        None => true,
                    },
                    None => false,
                };
                if differs {
                    let old_entry = remove_key(&mut index.sessions, id);
                    match old_entry {
                        Some(e) => {
                            let ghost removed = index.session_map();
                            let updated = SessionEntry { meta: e.meta, note_markdown: Some(n.clone()) };
                            insert_value(&mut index.sessions, to_owned_string(id), updated);
                            proof {
                                assert(index.session_map().remove(id@) =~= om.remove(id@));
                            }
                            true
                        },
                        None => false,
                    }
                } else {
                    false
                }
            },
            _ => false,
        },
    }
}


/// Whether a rescan changes the session's entry.
pub open spec fn entry_changed(old: Map<Seq<char>, SessionEntry>, id: Seq<char>, meta: Result<SessionMeta, StoreError>, note: Result<Option<String>, StoreError>) -> bool {
    match meta {
        Ok(m) => !(old.dom().contains(id) && old[id].deep_view() == refreshed_entry(old, id, m, note)),
        Err(_) => match note {
            Ok(Some(n)) => old.dom().contains(id) && old[id].note_markdown.deep_view() != Some(n@),
            _ => false,
        },
    }
}

/// The session's docs in the index before the rescan.
pub open spec fn docs_before(index: VaultIndex, id: Seq<char>) -> Seq<EnhancedDoc> {
    if index.doc_map().dom().contains(id) {
        index.doc_map()[id]@
    } else {
        Seq::empty()
    }
}

/// The entities a rescan changes, in notification order.
pub open spec fn refresh_changes(index: VaultIndex, id: Seq<char>, reads: SessionReads) -> Seq<IndexEntity> {
    (if entry_changed(index.session_map(), id, reads.meta, reads.note) { seq![IndexEntity::Sessions] } else { seq![] })
        + (match reads.docs {
        Ok(files) => if list_changed(index.doc_map(), id, collected_docs(files@, docs_before(index, id))) {
            seq![IndexEntity::Docs]
        } else {
            seq![]
        },
        Err(_) => seq![],
    }) + (match reads.transcripts {
        Ok(s) => if summary_changed(index.transcript_map(), id, s) { seq![IndexEntity::Transcripts] } else { seq![] },
        Err(_) => seq![],
    }) + (match reads.tasks {
        Some(t) => if value_changed(index.task_map(), id, t) { seq![IndexEntity::Tasks] } else { seq![] },
        None => seq![],
    })
}

proof fn lemma_first_after_concat(first: Option<StoreError>, a: Seq<(Seq<char>, StoreError)>, b: Seq<(Seq<char>, StoreError)>)
    ensures
        first_after(first_after(first, a), b) == first_after(first, a + b),
{
    if first.is_none() && a.len() > 0 {
        assert((a + b)[0] == a[0]);
    }
    if first.is_none() && a.len() == 0 {
        assert(a + b =~= b);
    }
}

proof fn lemma_failure_lines_concat(a: Seq<(Seq<char>, StoreError)>, b: Seq<(Seq<char>, StoreError)>)
    ensures
        failure_lines(a + b) == failure_lines(a) + failure_lines(b),
{
    assert(failure_lines(a + b) =~= failure_lines(a) + failure_lines(b));
}

/// Logs one failure, as `record_error` does, in terms of the failure lists.
fn log_failure(errors: &mut Vec<String>, first: &mut Option<StoreError>, context: String, err: StoreError)
    ensures
        final(errors)@.map_values(|s: String| s@) == old(errors)@.map_values(|s: String| s@)
            + failure_lines(seq![(context@, err)]),
        *final(first) == first_after(*old(first), seq![(context@, err)]),
{
    let ghost ctx = context@;
    let ghost eg = err;
    record_error(errors, first, context.as_str(), err);
    proof {
        let before = old(errors)@;
        assert(errors@ =~= before.push(errors@.last()));
        assert(errors@.map_values(|s: String| s@) =~= before.map_values(|s: String| s@) + failure_lines(seq![(ctx, eg)]));
    }
}

fn find_previous_doc(previous: &Vec<EnhancedDoc>, id: &str) -> (r: Option<EnhancedDoc>)
    ensures
        r == previous_doc(previous@, id@),
{
    let mut i: usize = previous.len();
    proof {
        assert(previous@.subrange(0, i as int) =~= previous@);
    }
    while i > 0
        invariant
            i <= previous.len(),
            previous_doc(previous@, id@) == previous_doc(previous@.subrange(0, i as int), id@),
        decreases i,
    {
        let k = i - 1;
        proof {
            assert(previous@.subrange(0, i as int).drop_last() =~= previous@.subrange(0, k as int));
        }
        if str_eq(previous[k].id.as_str(), id) {
            return Some(previous[k].clone());
        }
        i = k;
    }
    None
}

proof fn lemma_parsed_count_le(files: Seq<(String, Result<EnhancedDoc, StoreError>)>)
    ensures
        parsed_count(files) <= files.len(),
    decreases files.len(),
{
    if files.len() > 0 {
        lemma_parsed_count_le(files.drop_last());
    }
}

/// The docs a successful `enhanced/` listing yields, with the count of parsed
/// files; every unparseable file is logged and keeps its previous entry.
fn collect_docs(
    id: &str,
    files: &Vec<(String, Result<EnhancedDoc, StoreError>)>,
    previous: &Vec<EnhancedDoc>,
    errors: &mut Vec<String>,
    first: &mut Option<StoreError>,
) -> (r: (Vec<EnhancedDoc>, usize))
    ensures
        r.0@ == collected_docs(files@, previous@),
        r.1 == parsed_count(files@),
        final(errors)@.map_values(|s: String| s@) == old(errors)@.map_values(|s: String| s@)
            + failure_lines(doc_failures(id@, files@)),
        *final(first) == first_after(*old(first), doc_failures(id@, files@)),
{
    let ghost all = files@;
    let ghost errors0 = old(errors)@.map_values(|s: String| s@);
    let ghost first0 = *old(first);
    let mut out: Vec<EnhancedDoc> = Vec::new();
    let mut parsed: usize = 0;
    proof {
        assert(errors@.map_values(|s: String| s@) =~= errors0 + failure_lines(doc_failures(id@, all.subrange(0, 0))));
    }
    let mut i: usize = 0;
    while i < files.len()
        invariant
            i <= files.len(),
            all == files@,
            out@ == collected_docs(all.subrange(0, i as int), previous@),
            parsed == parsed_count(all.subrange(0, i as int)),
            parsed <= i,
            errors@.map_values(|s: String| s@) == errors0 + failure_lines(doc_failures(id@, all.subrange(0, i as int))),
            *first == first_after(first0, doc_failures(id@, all.subrange(0, i as int))),
        decreases files.len() - i,
    {
        let ghost cur = all.subrange(0, i + 1);
        let ghost prefix_failures = doc_failures(id@, all.subrange(0, i as int));
        proof {
            assert(cur.drop_last() =~= all.subrange(0, i as int));
            assert(cur.last() == all[i as int]);
        }
        let file = &files[i];
        match &file.1 {
            Ok(doc) => {
                out.push(doc.clone());
                parsed = parsed + 1;
                proof {
                    assert(out@ =~= collected_docs(cur, previous@));
                    assert(doc_failures(id@, cur) =~= prefix_failures);
                }
            },
            Err(e) => {
                let ghost eg = *e;
                let ghost ctx = id@ + ": enhanced/"@ + file.0@ + ".md"@;
                let keep = find_previous_doc(previous, file.0.as_str());
                let head = concat(id, ": enhanced/");
                let mid = concat(head.as_str(), file.0.as_str());
                let context = concat(mid.as_str(), ".md");
                log_failure(errors, first, context, e.duplicate());
                match keep {
                    Some(d) => {
                        out.push(d);
                    },
                    None => {},
                }
                proof {
                    assert(out@ =~= collected_docs(cur, previous@));
                    assert(doc_failures(id@, cur) =~= prefix_failures + seq![(ctx, eg)]);
                    lemma_failure_lines_concat(prefix_failures, seq![(ctx, eg)]);
                    lemma_first_after_concat(first0, prefix_failures, seq![(ctx, eg)]);
                }
            },
        }
        i = i + 1;
    }
    proof {
        assert(all.subrange(0, all.len() as int) =~= all);
    }
    (out, parsed)
}

/// The report side of a rescan: counts what read, logs every failure in file
/// order, and yields the docs to store when the listing succeeded.
fn log_reads(id: &str, reads: &SessionReads, previous: &Vec<EnhancedDoc>, report: &mut RebuildReport, first_error: &mut Option<StoreError>) -> (docs: Option<Vec<EnhancedDoc>>)
    requires
        old(report).sessions < usize::MAX,
        old(report).notes + 1 + match reads.docs {
            Ok(files) => files@.len() as int,
            Err(_) => 0,
        } <= usize::MAX,
        old(report).transcripts + match reads.transcripts {
            Ok(s) => s.transcript_ids@.len() as int,
            Err(_) => 0,
        } <= usize::MAX,
    ensures
        docs is None <==> reads.docs is Err,
        docs matches Some(v) ==> (reads.docs matches Ok(files) && v@ == collected_docs(files@, previous@)),
        final(report).sessions == old(report).sessions + if reads.meta is Ok { 1int } else { 0int },
        final(report).notes == old(report).notes + notes_read(*reads),
        final(report).transcripts == old(report).transcripts + match reads.transcripts {
            Ok(s) => s.transcript_ids@.len() as int,
            Err(_) => 0,
        },
        final(report).ghost_sessions == old(report).ghost_sessions,
        final(report).errors@.map_values(|s: String| s@) == old(report).errors@.map_values(|s: String| s@)
            + failure_lines(refresh_failures(id@, *reads)),
        *final(first_error) == first_after(*old(first_error), refresh_failures(id@, *reads)),
{
    let ghost r = *reads;
    let ghost errors0 = old(report).errors@.map_values(|s: String| s@);
    let ghost first0 = *old(first_error);
    let ghost f_meta: Seq<(Seq<char>, StoreError)> = match r.meta {
        Ok(_) => Seq::empty(),
        Err(e) => seq![(id@ + ": _meta.json"@, e)],
    };
    let ghost f_note: Seq<(Seq<char>, StoreError)> = match r.note {
        Ok(_) => Seq::empty(),
        Err(e) => seq![(id@ + ": notes.md"@, e)],
    };
    let ghost f_docs: Seq<(Seq<char>, StoreError)> = match r.docs {
        Ok(files) => doc_failures(id@, files@),
        Err(e) => seq![(id@, e)],
    };
    let ghost f_tr: Seq<(Seq<char>, StoreError)> = match r.transcripts {
        Ok(_) => Seq::empty(),
        Err(e) => seq![(id@ + ": transcript.json"@, e)],
    };
    match &reads.meta {
        Ok(_) => {
            report.sessions = report.sessions + 1;
        },
        Err(e) => {
            log_failure(&mut report.errors, first_error, concat(id, ": _meta.json"), e.duplicate());
        },
    }
    match &reads.note {
        Ok(n) => {
            if n.is_some() {
                report.notes = report.notes + 1;
            }
        },
        Err(e) => {
            log_failure(&mut report.errors, first_error, concat(id, ": notes.md"), e.duplicate());
        },
    }
    proof {
        if r.meta is Ok {
            assert(f_meta =~= Seq::<(Seq<char>, StoreError)>::empty());
        }
        if r.note is Ok {
            assert(f_note =~= Seq::<(Seq<char>, StoreError)>::empty());
        }
        lemma_failure_lines_concat(f_meta, f_note);
        lemma_first_after_concat(first0, f_meta, f_note);
        assert(report.errors@.map_values(|s: String| s@) =~= errors0 + failure_lines(f_meta + f_note));
    }
    let docs = match &reads.docs {
        Ok(files) => {
            proof {
                lemma_parsed_count_le(files@);
            }
            let (collected, count) = collect_docs(id, files, previous, &mut report.errors, first_error);
            report.notes = report.notes + count;
            Some(collected)
        },
        Err(e) => {
            log_failure(&mut report.errors, first_error, to_owned_string(id), e.duplicate());
            None
        },
    };
    proof {
        lemma_failure_lines_concat(f_meta + f_note, f_docs);
        lemma_first_after_concat(first0, f_meta + f_note, f_docs);
    }
    match &reads.transcripts {
        Ok(s) => {
            report.transcripts = report.transcripts + s.transcript_ids.len();
        },
        Err(e) => {
            log_failure(&mut report.errors, first_error, concat(id, ": transcript.json"), e.duplicate());
        },
    }
    proof {
        if r.transcripts is Ok {
            assert(f_tr =~= Seq::<(Seq<char>, StoreError)>::empty());
        }
        lemma_failure_lines_concat(f_meta + f_note + f_docs, f_tr);
        lemma_first_after_concat(first0, f_meta + f_note + f_docs, f_tr);
        assert(refresh_failures(id@, r) =~= f_meta + f_note + f_docs + f_tr);
    }
    docs
}

/// The index side of a rescan: the entry, the docs (when listed), the
/// transcript summary and the tasks (when read) are stored; returns the
/// entities that changed, in notification order.
fn apply_reads(index: &mut VaultIndex, id: &str, reads: SessionReads, docs: Option<Vec<EnhancedDoc>>) -> (found: Vec<IndexEntity>)
    requires
        old(index).wf(),
        docs is None <==> reads.docs is Err,
        docs matches Some(v) ==> (reads.docs matches Ok(files) && v@ == collected_docs(files@, docs_before(*old(index), id@))),
    ensures
        final(index).wf(),
        sessions_refreshed(old(index).session_map(), final(index).session_map(), id@, reads.meta, reads.note,
            entry_changed(old(index).session_map(), id@, reads.meta, reads.note)),
        match reads.docs {
            Ok(files) => list_stored(old(index).doc_map(), id@, collected_docs(files@, docs_before(*old(index), id@)),
                final(index).doc_map()),
            Err(_) => final(index).doc_map() == old(index).doc_map(),
        },
        match reads.transcripts {
            Ok(s) => final(index).transcript_map() == summary_applied(old(index).transcript_map(), id@, s),
            Err(_) => final(index).transcript_map() == old(index).transcript_map(),
        },
        match reads.tasks {
            Some(t) => final(index).task_map() == value_applied(old(index).task_map(), id@, t),
            None => final(index).task_map() == old(index).task_map(),
        },
        final(index).people == old(index).people,
        final(index).tags == old(index).tags,
        final(index).summaries == old(index).summaries,
        found@ == refresh_changes(*old(index), id@, reads),
{
    let ghost o = *old(index);
    let ghost r = reads;
    let SessionReads { meta, note, docs: _, transcripts, tasks } = reads;
    let changed_entry = refresh_entry(index, id, meta, &note);
    let ghost after_entry = *index;
    let changed_docs = match docs {
        Some(v) => {
            proof {
                lemma_value_applied_stores(after_entry.doc_map(), id@, v);
            }
            apply_map_value(&mut index.docs, id, v)
        },
        None => false,
    };
    let changed_transcripts = match transcripts {
        Ok(s) => apply_transcript_summary(&mut index.transcripts, id, s),
        Err(_) => false,
    };
    let changed_tasks = match tasks {
        Some(t) => apply_map_value(&mut index.tasks, id, t),
        None => false,
    };
    let mut found: Vec<IndexEntity> = Vec::new();
    if changed_entry {
        found.push(IndexEntity::Sessions);
    }
    if changed_docs {
        found.push(IndexEntity::Docs);
    }
    if changed_transcripts {
        found.push(IndexEntity::Transcripts);
    }
    if changed_tasks {
        found.push(IndexEntity::Tasks);
    }
    proof {
        assert(found@ =~= refresh_changes(o, id@, r));
    }
    found
}

/// Reconciles the index slice of one session with what its files read back
/// as, logs every failure into the report, and returns the changed entities
/// (each with the session id) for notification.
pub fn reconcile_session(
    index: &mut VaultIndex,
    id: &str,
    reads: SessionReads,
    report: &mut RebuildReport,
    first_error: &mut Option<StoreError>,
) -> (changes: Vec<(IndexEntity, String)>)
    requires
        old(index).wf(),
        old(report).sessions < usize::MAX,
        old(report).notes + 1 + match reads.docs {
            Ok(files) => files@.len() as int,
            Err(_) => 0,
        } <= usize::MAX,
        old(report).transcripts + match reads.transcripts {
            Ok(s) => s.transcript_ids@.len() as int,
            Err(_) => 0,
        } <= usize::MAX,
    ensures
        final(index).wf(),
        sessions_refreshed(old(index).session_map(), final(index).session_map(), id@, reads.meta, reads.note,
            entry_changed(old(index).session_map(), id@, reads.meta, reads.note)),
        match reads.docs {
            Ok(files) => list_stored(old(index).doc_map(), id@, collected_docs(files@, docs_before(*old(index), id@)),
                final(index).doc_map()),
            Err(_) => final(index).doc_map() == old(index).doc_map(),
        },
        match reads.transcripts {
            Ok(s) => final(index).transcript_map() == summary_applied(old(index).transcript_map(), id@, s),
            Err(_) => final(index).transcript_map() == old(index).transcript_map(),
        },
        match reads.tasks {
            Some(t) => final(index).task_map() == value_applied(old(index).task_map(), id@, t),
            None => final(index).task_map() == old(index).task_map(),
        },
        final(index).people == old(index).people,
        final(index).tags == old(index).tags,
        final(index).summaries == old(index).summaries,
        final(report).sessions == old(report).sessions + if reads.meta is Ok { 1int } else { 0int },
        final(report).notes == old(report).notes + notes_read(reads),
        final(report).transcripts == old(report).transcripts + match reads.transcripts {
            Ok(s) => s.transcript_ids@.len() as int,
            Err(_) => 0,
        },
        final(report).ghost_sessions == old(report).ghost_sessions,
        final(report).errors@.map_values(|s: String| s@) == old(report).errors@.map_values(|s: String| s@)
            + failure_lines(refresh_failures(id@, reads)),
        *final(first_error) == first_after(*old(first_error), refresh_failures(id@, reads)),
        changes.deep_view() == refresh_changes(*old(index), id@, reads).map_values(|e: IndexEntity| (e, id@)),
{
    let previous: Vec<EnhancedDoc> = match get_value(&index.docs, id) {
        Some(list) => {
            let mut copy: Vec<EnhancedDoc> = Vec::new();
            let mut i: usize = 0;
            while i < list.len()
                invariant
                    i <= list.len(),
                    copy@ == list@.subrange(0, i as int),
                decreases list.len() - i,
            {
                copy.push(list[i].clone());
                proof {
                    assert(copy@ =~= list@.subrange(0, i + 1));
                }
                i = i + 1;
            }
            proof {
                assert(list@.subrange(0, list@.len() as int) =~= list@);
            }
            copy
        },
        None => Vec::new(),
    };
    let docs = log_reads(id, &reads, &previous, report, first_error);
    let found = apply_reads(index, id, reads, docs);
    let ghost sid = id@;
    let mut changes: Vec<(IndexEntity, String)> = Vec::new();
    let mut k: usize = 0;
    while k < found.len()
        invariant
            k <= found.len(),
            sid == id@,
            changes.deep_view() == found@.subrange(0, k as int).map_values(|e: IndexEntity| (e, sid)),
        decreases found.len() - k,
    {
        let ghost before = changes.deep_view();
        let pair = (found[k], to_owned_string(id));
        proof {
            assert(pair.deep_view() == (found@[k as int], sid));
        }
        changes.push(pair);
        proof {
            assert(changes.deep_view() =~= before.push((found@[k as int], sid)));
            assert(changes.deep_view() =~= found@.subrange(0, k + 1).map_values(|e: IndexEntity| (e, sid)));
        }
        k = k + 1;
    }
    proof {
        assert(found@.subrange(0, found@.len() as int) =~= found@);
    }
    changes
}


proof fn lemma_collected_docs_ignore_previous(files: Seq<(String, Result<EnhancedDoc, StoreError>)>, id: Seq<char>, p1: Seq<EnhancedDoc>, p2: Seq<EnhancedDoc>)
    requires
        doc_failures(id, files).len() == 0,
    ensures
        collected_docs(files, p1) == collected_docs(files, p2),
    decreases files.len(),
{
    if files.len() > 0 {
        lemma_collected_docs_ignore_previous(files.drop_last(), id, p1, p2);
        if files.last().1 is Err {
            assert(doc_failures(id, files).len() > 0);
        }
    }
}

/// A rescan settles: once `reconcile_session` stored what a session's files
/// read back as, reconciling the same reads again reports no change, so a
/// retried refresh over unchanged files stays silent. (Every doc file must
/// parse: a failed file keeps a previous doc of the same id, which a second
/// pass can find among docs that parsed under another file's name.)
pub proof fn lemma_rescan_settles(before: VaultIndex, after: VaultIndex, id: Seq<char>, reads: SessionReads)
    requires
        before.wf(),
        after.wf(),
        reads.docs matches Ok(files) ==> doc_failures(id, files@).len() == 0,
        sessions_refreshed(before.session_map(), after.session_map(), id, reads.meta, reads.note,
            entry_changed(before.session_map(), id, reads.meta, reads.note)),
        match reads.docs {
            Ok(files) => list_stored(before.doc_map(), id, collected_docs(files@, docs_before(before, id)), after.doc_map()),
            Err(_) => after.doc_map() == before.doc_map(),
        },
        match reads.transcripts {
            Ok(s) => after.transcript_map() == summary_applied(before.transcript_map(), id, s),
            Err(_) => after.transcript_map() == before.transcript_map(),
        },
        match reads.tasks {
            Some(t) => after.task_map() == value_applied(before.task_map(), id, t),
            None => after.task_map() == before.task_map(),
        },
    ensures
        refresh_changes(after, id, reads).len() == 0,
{
    match reads.docs {
        Ok(files) => {
            lemma_collected_docs_ignore_previous(files@, id, docs_before(before, id), docs_before(after, id));
            let c = collected_docs(files@, docs_before(before, id));
            if c.len() > 0 && list_changed(before.doc_map(), id, c) {
                assert(after.doc_map()[id].deep_view() =~= Seq::new(c.len(), |i: int| c[i].deep_view()));
            }
        },
        Err(_) => {},
    }
    match reads.transcripts {
        Ok(s) => {
            crate::index::lemma_apply_transcript_summary_settles(before.transcript_map(), id, s);
        },
        Err(_) => {},
    }
    match reads.tasks {
        Some(t) => {
            crate::index::lemma_apply_map_value_settles(before.task_map(), id, t);
        },
        None => {},
    }
    assert(refresh_changes(after, id, reads) =~= Seq::<IndexEntity>::empty());
}


/// Whether a key is one a full rebuild prunes: held by one of the session
/// maps, not the vault-root tasks key, not found by the scan, not protected.
pub open spec fn is_stale(index: VaultIndex, present: Seq<Seq<char>>, protected: Seq<Seq<char>>, k: Seq<char>) -> bool {
    &&& (index.session_map().dom().contains(k) || index.doc_map().dom().contains(k)
        || index.transcript_map().dom().contains(k) || index.task_map().dom().contains(k))
    &&& k.len() != 0
    &&& !present.contains(k)
    &&& !protected.contains(k)
}

/// Adds the keys of `entries` that are neither the vault-root key, present
/// nor protected, each once.
fn add_stale_keys<V>(entries: &Vec<Keyed<V>>, present: &Vec<String>, protected: &Vec<String>, out: &mut Vec<String>)
    requires
        old(out).deep_view().no_duplicates(),
    ensures
        final(out).deep_view().no_duplicates(),
        forall|k: Seq<char>| #[trigger] final(out).deep_view().contains(k) <==> (old(out).deep_view().contains(k)
            || (as_map(entries@).dom().contains(k) && k.len() != 0 && !present.deep_view().contains(k)
                && !protected.deep_view().contains(k))),
    decreases entries@.len(),
{
    let ghost all = entries@;
    let ghost out0 = out.deep_view();
    let mut i: usize = 0;
    while i < entries.len()
        invariant
            i <= entries.len(),
            all == entries@,
            out.deep_view().no_duplicates(),
            forall|k: Seq<char>| #[trigger] out.deep_view().contains(k) <==> (out0.contains(k) || exists|j: int|
                0 <= j < i && all[j].key@ == k && k.len() != 0 && !present.deep_view().contains(k)
                    && !protected.deep_view().contains(k)),
        decreases entries.len() - i,
    {
        let key = &entries[i].key;
        let wanted = key.unicode_len() != 0 && !crate::meta::vec_contains_str(present, key.as_str())
            && !crate::meta::vec_contains_str(protected, key.as_str());
        let ghost before = out.deep_view();
        if wanted && !crate::meta::vec_contains_str(out, key.as_str()) {
            out.push(key.clone());
            proof {
                assert(out.deep_view() =~= before.push(key@));
                assert(out.deep_view().no_duplicates()) by {
                    assert forall|a: int, b: int| 0 <= a < b < out.deep_view().len() implies out.deep_view()[a] != out.deep_view()[b] by {
                        if b == before.len() {
                            assert(before[a] == out.deep_view()[a]);
                            assert(before.contains(before[a]));
                        } else {
                            assert(before[a] == out.deep_view()[a] && before[b] == out.deep_view()[b]);
                        }
                    }
                }
            }
        }
        proof {
            assert forall|k: Seq<char>| #[trigger] out.deep_view().contains(k) <==> (out0.contains(k) || exists|j: int|
                0 <= j < i + 1 && all[j].key@ == k && k.len() != 0 && !present.deep_view().contains(k)
                    && !protected.deep_view().contains(k)) by {
                if out.deep_view().contains(k) && !before.contains(k) {
                    let t = choose|t: int| 0 <= t < out.deep_view().len() && out.deep_view()[t] == k;
                    if t < before.len() {
                        assert(before[t] == k);
                    }
                    assert(all[i as int].key@ == k);
                }
                if before.contains(k) {
                    let t = choose|t: int| 0 <= t < before.len() && before[t] == k;
                    assert(out.deep_view()[t] == k);
                }
                if exists|j: int| 0 <= j < i + 1 && all[j].key@ == k && k.len() != 0 && !present.deep_view().contains(k)
                    && !protected.deep_view().contains(k) {
                    let j = choose|j: int| 0 <= j < i + 1 && all[j].key@ == k && k.len() != 0 && !present.deep_view().contains(k)
                        && !protected.deep_view().contains(k);
                    if j == i && !before.contains(k) {
                        assert(out.deep_view()[out.deep_view().len() - 1] == k);
                    }
                }
            }
        }
        i = i + 1;
    }
    proof {
        assert forall|k: Seq<char>| #[trigger] as_map(all).dom().contains(k) <==> exists|j: int| 0 <= j < all.len() && all[j].key@ == k by {
            crate::keyed::lemma_as_map_dom(all, k);
        }
    }
}


/// The ids a full rebuild prunes: every id the session maps hold that the
/// scan did not find and that is not protected (ambiguous or unreadable),
/// never the vault-root tasks key; each once.
pub fn stale_session_ids(index: &VaultIndex, present: &Vec<String>, protected: &Vec<String>) -> (stale: Vec<String>)
    ensures
        stale.deep_view().no_duplicates(),
        forall|k: Seq<char>| #[trigger] stale.deep_view().contains(k) <==> is_stale(*index, present.deep_view(), protected.deep_view(), k),
{
    let mut out: Vec<String> = Vec::new();
    add_stale_keys(&index.sessions, present, protected, &mut out);
    add_stale_keys(&index.docs, present, protected, &mut out);
    add_stale_keys(&index.transcripts, present, protected, &mut out);
    add_stale_keys(&index.tasks, present, protected, &mut out);
    out
}

/// A session directory in the location catalog, with the key by which two
/// directories compare (its Unicode-normalized form).
#[derive(Debug)]
pub struct Location {
    pub dir: String,
    pub key: String,
}

impl Clone for Location {
    fn clone(&self) -> (r: Self)
        ensures
            r == *self,
    {
        Location { dir: self.dir.clone(), key: self.key.clone() }
    }
}

/// The scanned locations keyed by id; a later claim wins.
pub open spec fn scanned_map(scanned: Seq<(String, Location)>) -> Map<Seq<char>, Location>
    decreases scanned.len(),
{
    if scanned.len() == 0 {
        Map::empty()
    } else {
        scanned_map(scanned.drop_last()).insert(scanned.last().0@, scanned.last().1)
    }
}

/// The catalog after a rebuild's swap: every scanned location, plus the
/// previous location of each protected id the scan missed, unless the id is
/// claimed by several directories.
pub open spec fn catalog_after(
    previous: Map<Seq<char>, Location>,
    scanned: Seq<(String, Location)>,
    protected: Seq<Seq<char>>,
    duplicates: Seq<Seq<char>>,
) -> Map<Seq<char>, Location> {
    Map::new(
        |k: Seq<char>| scanned_map(scanned).dom().contains(k) || (protected.contains(k) && !duplicates.contains(k)
            && previous.dom().contains(k)),
        |k: Seq<char>| if scanned_map(scanned).dom().contains(k) { scanned_map(scanned)[k] } else { previous[k] },
    )
}

/// The id's directory was added, removed, or moved to a different directory.
pub open spec fn location_moved(a: Map<Seq<char>, Location>, b: Map<Seq<char>, Location>, k: Seq<char>) -> bool {
    if a.dom().contains(k) && b.dom().contains(k) {
        a[k].key@ != b[k].key@
    } else {
        a.dom().contains(k) || b.dom().contains(k)
    }
}

/// Collects each key of `entries` whose location moved between `a` and `b`.
fn add_moved_keys(entries: &Vec<Keyed<Location>>, a: &Vec<Keyed<Location>>, b: &Vec<Keyed<Location>>, out: &mut Vec<String>)
    requires
        keys_unique(a@),
        keys_unique(b@),
    ensures
        forall|k: Seq<char>| #[trigger] final(out).deep_view().contains(k) <==> (old(out).deep_view().contains(k)
            || (as_map(entries@).dom().contains(k) && location_moved(as_map(a@), as_map(b@), k))),
{
    let ghost all = entries@;
    let ghost out0 = out.deep_view();
    let mut i: usize = 0;
    while i < entries.len()
        invariant
            i <= entries.len(),
            all == entries@,
            keys_unique(a@),
            keys_unique(b@),
            forall|k: Seq<char>| #[trigger] out.deep_view().contains(k) <==> (out0.contains(k) || exists|j: int|
                0 <= j < i && all[j].key@ == k && location_moved(as_map(a@), as_map(b@), k)),
        decreases entries.len() - i,
    {
        let key = &entries[i].key;
        let moved = match (get_value(a, key.as_str()), get_value(b, key.as_str())) {
            (Some(x), Some(y)) => !str_eq(x.key.as_str(), y.key.as_str()),
            (None, None) => false,
            _ => true,
        };
        let ghost before = out.deep_view();
        if moved {
            out.push(key.clone());
            proof {
                assert(out.deep_view() =~= before.push(key@));
            }
        }
        proof {
            assert forall|k: Seq<char>| #[trigger] out.deep_view().contains(k) <==> (out0.contains(k) || exists|j: int|
                0 <= j < i + 1 && all[j].key@ == k && location_moved(as_map(a@), as_map(b@), k)) by {
                if out.deep_view().contains(k) && !before.contains(k) {
                    let t = choose|t: int| 0 <= t < out.deep_view().len() && out.deep_view()[t] == k;
                    if t < before.len() {
                        assert(before[t] == k);
                    }
                    assert(all[i as int].key@ == k);
                }
                if before.contains(k) {
                    let t = choose|t: int| 0 <= t < before.len() && before[t] == k;
                    assert(out.deep_view()[t] == k);
                }
                if exists|j: int| 0 <= j < i + 1 && all[j].key@ == k && location_moved(as_map(a@), as_map(b@), k) {
                    let j = choose|j: int| 0 <= j < i + 1 && all[j].key@ == k && location_moved(as_map(a@), as_map(b@), k);
                    if j == i && moved {
                        assert(out.deep_view()[out.deep_view().len() - 1] == k);
                    }
                }
            }
        }
        i = i + 1;
    }
    proof {
        assert forall|k: Seq<char>| #[trigger] as_map(all).dom().contains(k) <==> exists|j: int| 0 <= j < all.len() && all[j].key@ == k by {
            crate::keyed::lemma_as_map_dom(all, k);
        }
    }
}

/// A rebuild's catalog swap: the new catalog holds every scanned location
/// (a later claim of an id wins), and keeps the previous location of each
/// protected id the scan missed unless several directories claim it. Returns
/// the new catalog and the ids whose directory was added, removed or moved,
/// sorted and each once.
pub fn swap_locations(
    previous: &Vec<Keyed<Location>>,
    scanned: Vec<(String, Location)>,
    protected: &Vec<String>,
    duplicates: &Vec<String>,
) -> (r: (Vec<Keyed<Location>>, Vec<String>))
    requires
        keys_unique(previous@),
    ensures
        keys_unique(r.0@),
        as_map(r.0@) == catalog_after(as_map(previous@), scanned@, protected.deep_view(), duplicates.deep_view()),
        crate::meta::strictly_sorted(r.1.deep_view()),
        forall|k: Seq<char>| #[trigger] r.1.deep_view().contains(k) <==> location_moved(as_map(previous@),
            as_map(r.0@), k),
{
    let ghost all = scanned@;
    let ghost n = all.len();
    let mut rest = scanned;
    let mut catalog: Vec<Keyed<Location>> = Vec::new();
    while rest.len() > 0
        invariant
            n == all.len(),
            rest.len() <= n,
            rest@ == all.subrange(n - rest.len(), n as int),
            keys_unique(catalog@),
            as_map(catalog@) == scanned_map(all.subrange(0, n - rest.len())),
        decreases rest.len(),
    {
        let ghost done = n - rest.len();
        let entry = rest.remove(0);
        proof {
            assert(all[done] == entry);
            assert(all.subrange(0, done + 1).drop_last() =~= all.subrange(0, done));
            assert(rest@ =~= all.subrange(n - rest.len(), n as int));
        }
        let (id, location) = entry;
        insert_value(&mut catalog, id, location);
    }
    proof {
        assert(all.subrange(0, n as int) =~= all);
    }
    let ghost base = as_map(catalog@);
    let ghost prev = as_map(previous@);
    let ghost pv = protected.deep_view();
    let ghost dv = duplicates.deep_view();
    let mut i: usize = 0;
    while i < protected.len()
        invariant
            i <= protected.len(),
            base == scanned_map(all),
            prev == as_map(previous@),
            pv == protected.deep_view(),
            dv == duplicates.deep_view(),
            keys_unique(previous@),
            keys_unique(catalog@),
            as_map(catalog@) == Map::new(
                |k: Seq<char>| base.dom().contains(k) || (pv.subrange(0, i as int).contains(k) && !dv.contains(k)
                    && prev.dom().contains(k)),
                |k: Seq<char>| if base.dom().contains(k) { base[k] } else { prev[k] },
            ),
        decreases protected.len() - i,
    {
        let id = &protected[i];
        let ghost before = as_map(catalog@);
        let restore = !crate::meta::vec_contains_str(duplicates, id.as_str());
        if restore {
            match get_value(previous, id.as_str()) {
                Some(loc) => {
                    let present = match get_value(&catalog, id.as_str()) {
                        Some(_) => true,
                        None => false,
                    };
                    if !present {
                        insert_value(&mut catalog, id.clone(), loc.clone());
                    }
                },
                None => {},
            }
        }
        proof {
            assert(pv[i as int] == id@);
            assert(as_map(catalog@) =~= Map::new(
                |k: Seq<char>| base.dom().contains(k) || (pv.subrange(0, i + 1).contains(k) && !dv.contains(k)
                    && prev.dom().contains(k)),
                |k: Seq<char>| if base.dom().contains(k) { base[k] } else { prev[k] },
            )) by {
                assert(pv.subrange(0, i + 1) =~= pv.subrange(0, i as int).push(id@));
                assert forall|k: Seq<char>| #[trigger] pv.subrange(0, i + 1).contains(k) <==> (pv.subrange(0, i as int).contains(k) || k == id@) by {
                    if k == id@ {
                        assert(pv.subrange(0, i + 1)[i as int] == k);
                    }
                    let p0 = pv.subrange(0, i as int);
                    let p1 = pv.subrange(0, i + 1);
                    if p0.contains(k) {
                        let t = choose|t: int| 0 <= t < p0.len() && p0[t] == k;
                        assert(p1[t] == k);
                    }
                    if p1.contains(k) && k != id@ {
                        let t = choose|t: int| 0 <= t < p1.len() && p1[t] == k;
                        assert(p0[t] == k);
                    }
                }
            }
        }
        i = i + 1;
    }
    proof {
        assert(as_map(catalog@) =~= catalog_after(prev, all, pv, dv)) by {
            assert(pv.subrange(0, protected@.len() as int) =~= pv);
        }
    }
    let mut moved: Vec<String> = Vec::new();
    add_moved_keys(previous, previous, &catalog, &mut moved);
    add_moved_keys(&catalog, previous, &catalog, &mut moved);
    proof {
        assert forall|k: Seq<char>| #[trigger] moved.deep_view().contains(k) <==> location_moved(prev, as_map(catalog@), k) by {
            if location_moved(prev, as_map(catalog@), k) {
                assert(prev.dom().contains(k) || as_map(catalog@).dom().contains(k));
            }
        }
    }
    let ghost mv = moved.deep_view();
    let sorted = crate::meta::sort_dedup_names(moved);
    proof {
        assert forall|k: Seq<char>| #[trigger] sorted.deep_view().contains(k) <==> mv.contains(k) by {
            assert(sorted.deep_view().to_set().contains(k) == sorted.deep_view().contains(k));
            assert(mv.to_set().contains(k) == mv.contains(k));
        }
    }
    (catalog, sorted)
}

/// A second rebuild over an unchanged vault reports nothing: swapping the
/// catalog for the same scan again leaves it as it is, so no id counts as
/// moved, and once the index holds only ids the scan found or protects (or
/// the vault-root key) nothing is stale to prune. Each session's refresh is
/// silent by `lemma_rescan_settles`.
pub proof fn lemma_rebuild_settles(
    previous: Map<Seq<char>, Location>,
    scanned: Seq<(String, Location)>,
    protected: Seq<Seq<char>>,
    duplicates: Seq<Seq<char>>,
    index: VaultIndex,
    present: Seq<Seq<char>>,
)
    requires
        forall|k: Seq<char>|
            (index.session_map().dom().contains(k) || index.doc_map().dom().contains(k)
                || index.transcript_map().dom().contains(k) || index.task_map().dom().contains(k))
                ==> k.len() == 0 || present.contains(k) || protected.contains(k),
    ensures
        ({
            let once = catalog_after(previous, scanned, protected, duplicates);
            &&& catalog_after(once, scanned, protected, duplicates) == once
            &&& forall|k: Seq<char>| !location_moved(once, catalog_after(once, scanned, protected, duplicates), k)
        }),
        forall|k: Seq<char>| !is_stale(index, present, protected, k),
{
    let once = catalog_after(previous, scanned, protected, duplicates);
    assert(catalog_after(once, scanned, protected, duplicates) =~= once);
}

} // verus!
