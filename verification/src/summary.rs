//! The session summary (`summary.md`): the index's summary map, the
//! compare-and-swap rule of an edit, and the decisions of the one-way
//! migration of a legacy `enhanced/<id>.md` summary doc into `summary.md`.
//! Every file read and write of the migration belongs to the caller, which
//! hands each outcome here and follows the decision it gets back.

use vstd::prelude::*;

use crate::enhanced::EnhancedDoc;
use crate::error::StoreError;
use crate::index::VaultIndex;
use crate::keyed::{as_map, get_value, insert_value, remove_key};
use crate::strings::{concat, str_eq, to_owned_string};

verus! {

/// The stored summary of a session, if any.
pub fn summary_get(index: &VaultIndex, session_id: &str) -> (r: Option<String>)
    requires
        index.wf(),
    ensures
        r is Some <==> index.summary_map().dom().contains(session_id@),
        r matches Some(m) ==> m@ == index.summary_map()[session_id@]@,
{
    match get_value(&index.summaries, session_id) {
        Some(m) => Some(m.clone()),
        None => None,
    }
}

/// Whether the summary map changes when the session's summary becomes
/// `markdown` (`None`: deleted).
pub open spec fn summary_text_changed(m: Map<Seq<char>, String>, id: Seq<char>, markdown: Option<Seq<char>>) -> bool {
    match markdown {
        Some(md) => !(m.dom().contains(id) && m[id]@ == md),
        None => m.dom().contains(id),
    }
}

/// Records the session's summary in the index. Legacy summary docs leave the
/// session's doc list (the summary now lives in `summary.md`); the summary
/// map gains, keeps, or loses the text. Returns whether the summary map
/// changed (then the caller notifies `Docs`).
pub fn set_summary(index: &mut VaultIndex, id: &str, markdown: Option<String>) -> (changed: bool)
    requires
        old(index).wf(),
    ensures
        final(index).wf(),
        changed == summary_text_changed(old(index).summary_map(), id@, markdown.deep_view()),
        match markdown {
            Some(md) => changed ==> final(index).summary_map() == old(index).summary_map().insert(id@, md),
            None => final(index).summary_map() == old(index).summary_map().remove(id@),
        },
        !changed ==> final(index).summary_map() == old(index).summary_map(),
        old(index).doc_map().dom().contains(id@) ==> {
            &&& final(index).doc_map().dom().contains(id@)
            &&& final(index).doc_map()[id@]@ == old(index).doc_map()[id@]@.filter(|d: EnhancedDoc| d.kind@ != "summary"@)
            &&& final(index).doc_map().remove(id@) == old(index).doc_map().remove(id@)
        },
        !old(index).doc_map().dom().contains(id@) ==> final(index).doc_map() == old(index).doc_map(),
        final(index).sessions == old(index).sessions,
        final(index).transcripts == old(index).transcripts,
        final(index).tasks == old(index).tasks,
        final(index).people == old(index).people,
        final(index).tags == old(index).tags,
{
    let ghost od = old(index).doc_map();
    match remove_key(&mut index.docs, id) {
        Some(docs) => {
            let kept = docs_without_kind(&docs, "summary");
            proof {
                reveal_strlit("summary");
            }
            let ghost removed = as_map(index.docs@);
            insert_value(&mut index.docs, to_owned_string(id), kept);
            proof {
                assert(as_map(index.docs@).remove(id@) =~= od.remove(id@));
            }
        },
        None => {},
    }
    match markdown {
        Some(md) => {
            let same = match get_value(&index.summaries, id) {
                Some(current) => str_eq(current.as_str(), md.as_str()),
                None => false,
            };
            if same {
                false
            } else {
                insert_value(&mut index.summaries, to_owned_string(id), md);
                true
            }
        },
        None => match remove_key(&mut index.summaries, id) {
            Some(_) => true,
            None => false,
        },
    }
}

/// A doc list without the docs of one kind, in order.
fn docs_without_kind(docs: &Vec<EnhancedDoc>, kind: &str) -> (r: Vec<EnhancedDoc>)
    ensures
        r@ == docs@.filter(|d: EnhancedDoc| d.kind@ != kind@),
{
    let ghost pred = |d: EnhancedDoc| d.kind@ != kind@;
    let mut kept: Vec<EnhancedDoc> = Vec::new();
    let mut k: usize = 0;
    while k < docs.len()
        invariant
            k <= docs.len(),
            pred == (|d: EnhancedDoc| d.kind@ != kind@),
            kept@ == docs@.subrange(0, k as int).filter(pred),
        decreases docs.len() - k,
    {
        proof {
            assert(docs@.subrange(0, k + 1).drop_last() =~= docs@.subrange(0, k as int));
            reveal_with_fuel(Seq::<_>::filter, 1);
        }
        if !str_eq(docs[k].kind.as_str(), kind) {
            kept.push(docs[k].clone());
        }
        proof {
            assert(kept@ =~= docs@.subrange(0, k + 1).filter(pred));
        }
        k = k + 1;
    }
    proof {
        assert(docs@.subrange(0, docs@.len() as int) =~= docs@);
    }
    kept
}

/// An edit conflicts when the caller expected a text other than the current
/// one; a generated summary rewriting the current text to itself does not.
pub open spec fn edit_conflicts(expected: Option<Seq<char>>, current: Seq<char>, markdown: Seq<char>, generated: bool) -> bool {
    (expected matches Some(e) && e != current) && !(generated && markdown == current)
}

/// Checks a summary edit against the text on disk: `Conflict` when the
/// summary changed since the caller read it.
pub fn check_summary_edit(expected: Option<&str>, current: &str, markdown: &str, generated: bool) -> (r: Result<(), StoreError>)
    ensures
        r is Err <==> edit_conflicts(match expected {
            Some(e) => Some(e@),
            None => None,
        }, current@, markdown@, generated),
        r matches Err(e) ==> e == StoreError::Conflict(e->Conflict_0) && e->Conflict_0@ == "summary changed since it was read"@,
{
    let conflicts = match expected {
        Some(e) => !str_eq(e, current),
        None => false,
    } && !(generated && str_eq(markdown, current));
    if conflicts {
        Err(StoreError::Conflict(to_owned_string("summary changed since it was read")))
    } else {
        Ok(())
    }
}

/// The error of an edit that saved the summary but could not sync its tasks.
pub fn task_sync_error(err: &StoreError) -> (r: StoreError)
    ensures
        r == StoreError::Io(r->Io_0),
        r->Io_0@ == "Summary saved but task synchronization failed; retry to finish: "@ + crate::error::error_text(*err),
{
    let text = err.to_string();
    StoreError::Io(concat("Summary saved but task synchronization failed; retry to finish: ", text.as_str()))
}

/// The first unparseable legacy doc's error, in listing order.
pub open spec fn first_failure(docs: Seq<Result<EnhancedDoc, StoreError>>) -> Option<StoreError>
    decreases docs.len(),
{
    if docs.len() == 0 {
        None
    } else if docs[0] is Err {
        Some(docs[0]->Err_0)
    } else {
        first_failure(docs.drop_first())
    }
}

/// The parsed legacy docs of kind `summary`, in order.
pub open spec fn legacy_summaries(docs: Seq<Result<EnhancedDoc, StoreError>>) -> Seq<EnhancedDoc>
    decreases docs.len(),
{
    if docs.len() == 0 {
        Seq::empty()
    } else {
        legacy_summaries(docs.drop_last()) + match docs.last() {
            Ok(d) => if d.kind@ == "summary"@ { seq![d] } else { Seq::empty() },
            Err(_) => Seq::empty(),
        }
    }
}

proof fn lemma_first_failure_push(docs: Seq<Result<EnhancedDoc, StoreError>>, d: Result<EnhancedDoc, StoreError>)
    ensures
        first_failure(docs.push(d)) == match first_failure(docs) {
            Some(e) => Some(e),
            None => match d {
                Err(e) => Some(e),
                Ok(_) => None,
            },
        },
    decreases docs.len(),
{
    reveal_with_fuel(first_failure, 2);
    if docs.len() > 0 {
        assert(docs.push(d)[0] == docs[0]);
        assert(docs.push(d).drop_first() =~= docs.drop_first().push(d));
        lemma_first_failure_push(docs.drop_first(), d);
    } else {
        assert(docs.push(d)[0] == d);
        assert(docs.push(d).drop_first() =~= Seq::<Result<EnhancedDoc, StoreError>>::empty());
    }
}

/// The legacy summary doc to migrate from a session's parsed legacy docs:
/// the first unparseable doc aborts with its error, no summary means nothing
/// to migrate, and several summaries are a conflict left for the user.
pub fn pick_legacy_summary(docs: Vec<Result<EnhancedDoc, StoreError>>) -> (r: Result<Option<EnhancedDoc>, StoreError>)
    ensures
        first_failure(docs@) matches Some(e) ==> r == Err::<Option<EnhancedDoc>, StoreError>(e),
        first_failure(docs@) is None ==> {
            let s = legacy_summaries(docs@);
            &&& s.len() == 0 ==> r == Ok::<Option<EnhancedDoc>, StoreError>(None)
            &&& s.len() == 1 ==> r == Ok::<Option<EnhancedDoc>, StoreError>(Some(s[0]))
            &&& s.len() > 1 ==> (r matches Err(e) && e == StoreError::Conflict(e->Conflict_0)
                && e->Conflict_0@ == "multiple legacy summaries; files left unchanged"@)
        },
{
    let ghost all = docs@;
    let ghost n = all.len();
    let mut rest = docs;
    let mut summaries: Vec<EnhancedDoc> = Vec::new();
    let mut failure: Option<StoreError> = None;
    proof {
        assert(all.subrange(0, 0) =~= Seq::<Result<EnhancedDoc, StoreError>>::empty());
    }
    while rest.len() > 0
        invariant
            n == all.len(),
            rest.len() <= n,
            rest@ == all.subrange(n - rest.len(), n as int),
            failure == first_failure(all.subrange(0, n - rest.len())),
            summaries@ == legacy_summaries(all.subrange(0, n - rest.len())),
        decreases rest.len(),
    {
        let ghost done = n - rest.len();
        let d = rest.remove(0);
        proof {
            assert(all[done] == d);
            assert(all.subrange(0, done + 1) =~= all.subrange(0, done).push(d));
            assert(all.subrange(0, done + 1).drop_last() =~= all.subrange(0, done));
            assert(rest@ =~= all.subrange(n - rest.len(), n as int));
            lemma_first_failure_push(all.subrange(0, done), d);
            reveal_strlit("summary");
        }
        match d {
            Ok(doc) => {
                if str_eq(doc.kind.as_str(), "summary") {
                    summaries.push(doc);
                }
            },
            Err(e) => {
                if failure.is_none() {
                    failure = Some(e);
                }
            },
        }
        proof {
            assert(summaries@ =~= legacy_summaries(all.subrange(0, done + 1)));
        }
    }
    proof {
        assert(all.subrange(0, n as int) =~= all);
    }
    match failure {
        Some(e) => Err(e),
        None => {
            if summaries.len() == 0 {
                Ok(None)
            } else if summaries.len() == 1 {
                Ok(Some(summaries.remove(0)))
            } else {
                Err(StoreError::Conflict(to_owned_string("multiple legacy summaries; files left unchanged")))
            }
        },
    }
}

/// What reading a file back gave: its text, not found (with the error's
/// text), or another read failure (with the error's text).
pub enum FileRead {
    Content(String),
    Missing(String),
    Failed(String),
}

/// Before the migration writes its marker, the legacy source must still hold
/// the text it started from; a missing source is fine only when a resumed
/// migration already published the summary.
pub fn check_migration_source(read: FileRead, original: &str, can_resume_without_source: bool) -> (r: Result<(), StoreError>)
    ensures
        match read {
            FileRead::Content(raw) => if raw@ == original@ {
                r is Ok
            } else {
                r matches Err(e) && e == StoreError::Conflict(e->Conflict_0)
                    && e->Conflict_0@ == "legacy summary changed during migration"@
            },
            FileRead::Missing(m) => if can_resume_without_source {
                r is Ok
            } else {
                r == Err::<(), StoreError>(StoreError::Io(m))
            },
            FileRead::Failed(m) => r == Err::<(), StoreError>(StoreError::Io(m)),
        },
{
    match read {
        FileRead::Content(raw) => if str_eq(raw.as_str(), original) {
            Ok(())
        } else {
            Err(StoreError::Conflict(to_owned_string("legacy summary changed during migration")))
        },
        FileRead::Missing(m) => if can_resume_without_source {
            Ok(())
        } else {
            Err(StoreError::Io(m))
        },
        FileRead::Failed(m) => Err(StoreError::Io(m)),
    }
}

/// What the migration does about `summary.md`: publish the migrated text
/// when there is none, nothing when it already holds that text, and stop when
/// it holds something else. `Ok(true)` means publish.
pub fn canonical_summary_step(current: Option<&str>, markdown: &str) -> (r: Result<bool, StoreError>)
    ensures
        current is None ==> r == Ok::<bool, StoreError>(true),
        current matches Some(c) && c@ == markdown@ ==> r == Ok::<bool, StoreError>(false),
        current matches Some(c) && c@ != markdown@ ==> (r matches Err(e) && e == StoreError::Conflict(e->Conflict_0)
            && e->Conflict_0@ == "summary.md changed during migration; files retained"@),
{
    match current {
        None => Ok(true),
        Some(c) => if str_eq(c, markdown) {
            Ok(false)
        } else {
            Err(StoreError::Conflict(to_owned_string("summary.md changed during migration; files retained")))
        },
    }
}

/// Before the legacy source goes to the trash it must still hold its
/// original text (or be gone already).
pub fn check_source_before_trash(read: FileRead, original: &str) -> (r: Result<(), StoreError>)
    ensures
        match read {
            FileRead::Content(raw) => if raw@ == original@ {
                r is Ok
            } else {
                r matches Err(e) && e == StoreError::Conflict(e->Conflict_0)
                    && e->Conflict_0@ == "legacy summary changed during migration; both copies retained"@
            },
            FileRead::Missing(_) => r is Ok,
            FileRead::Failed(m) => r == Err::<(), StoreError>(StoreError::Io(m)),
        },
{
    match read {
        FileRead::Content(raw) => if str_eq(raw.as_str(), original) {
            Ok(())
        } else {
            Err(StoreError::Conflict(to_owned_string("legacy summary changed during migration; both copies retained")))
        },
        FileRead::Missing(_) => Ok(()),
        FileRead::Failed(m) => Err(StoreError::Io(m)),
    }
}

/// A migration that stopped on a conflict before writing its marker is
/// deferred (the old summary stays editable) only when the session has
/// exactly one legacy summary doc; every other outcome stands.
pub fn deferred_migration_outcome(outcome: Result<(), StoreError>, marker_exists: bool, legacy_summary_docs: usize) -> (r: Result<(), StoreError>)
    ensures
        (outcome matches Err(StoreError::Conflict(_)) && !marker_exists) ==> (if legacy_summary_docs == 1 {
            r is Ok
        } else {
            r == outcome
        }),
        !(outcome matches Err(StoreError::Conflict(_)) && !marker_exists) ==> r == outcome,
{
    match outcome {
        Err(StoreError::Conflict(reason)) => {
            if !marker_exists && legacy_summary_docs == 1 {
                Ok(())
            } else {
                Err(StoreError::Conflict(reason))
            }
        },
        other => other,
    }
}

/// What probing a path (without following a link) found.
pub enum PathProbe {
    Exists,
    Missing,
    /// The probe failed; the error's text.
    Failed(String),
}

/// The migration publishes `summary.md` only where nothing stands yet:
/// anything already there is a conflict, and a failed probe is an I/O error.
pub fn check_summary_slot(probe: PathProbe) -> (r: Result<(), StoreError>)
    ensures
        match probe {
            PathProbe::Exists => r matches Err(e) && e == StoreError::Conflict(e->Conflict_0)
                && e->Conflict_0@ == "summary.md already exists; move the conflicting file and restart"@,
            PathProbe::Missing => r is Ok,
            PathProbe::Failed(m) => r == Err::<(), StoreError>(StoreError::Io(m)),
        },
{
    match probe {
        PathProbe::Exists => Err(StoreError::Conflict(to_owned_string(
            "summary.md already exists; move the conflicting file and restart",
        ))),
        PathProbe::Missing => Ok(()),
        PathProbe::Failed(m) => Err(StoreError::Io(m)),
    }
}

/// The legacy document re-read for the migration must still be a summary;
/// otherwise it changed under the migration.
pub fn check_reread_kind(kind: &str) -> (r: Result<(), StoreError>)
    ensures
        kind@ == "summary"@ ==> r is Ok,
        kind@ != "summary"@ ==> (r matches Err(e) && e == StoreError::Conflict(e->Conflict_0)
            && e->Conflict_0@ == "legacy document changed during migration"@),
{
    if str_eq(kind, "summary") {
        Ok(())
    } else {
        Err(StoreError::Conflict(to_owned_string("legacy document changed during migration")))
    }
}

} // verus!
