//! Naming of the files a session holds besides its documents: note
//! attachments (a sanitized basename, deduplicated with a counter) and the
//! session recording (`audio.<ext>` in the session directory), and what a
//! session's audio is inferred to be from its transcript words.

use vstd::prelude::*;

use crate::error::StoreError;
use crate::paths::{debug_quoted, debug_str, is_current_segment, is_parent_segment, split_path, split_slash};
use crate::storage::{extension, extension_of};
use crate::strings::{
    ascii_lower, concat, decimal, seq_contains_seq, seq_ends_with, seq_starts_with, str_contains, str_ends_with,
    str_eq, str_starts_with, substring, to_ascii_lowercase, to_owned_string, u64_to_decimal,
};

verus! {

/// The last component of a piece list as `Path::file_name` reads it: empty
/// and `.` pieces are not components, and a path ending in `..` has no name.
pub open spec fn last_named(segs: Seq<Seq<char>>) -> Option<Seq<char>>
    decreases segs.len(),
{
    if segs.len() == 0 {
        None
    } else if segs.last().len() == 0 || is_current_segment(segs.last()) {
        last_named(segs.drop_last())
    } else if is_parent_segment(segs.last()) {
        None
    } else {
        Some(segs.last())
    }
}

/// The file name of a `/`-separated path.
pub open spec fn file_name_of(p: Seq<char>) -> Option<Seq<char>> {
    last_named(split_slash(p))
}

/// The file name of a path, as `Path::file_name` reads it.
pub fn file_name(p: &str) -> (r: Option<String>)
    ensures
        r is None <==> file_name_of(p@) is None,
        r matches Some(n) ==> file_name_of(p@) == Some(n@),
{
    let segs = split_path(p);
    let ghost sv = segs@.map_values(|s: String| s@);
    let mut i: usize = segs.len();
    proof {
        assert(sv.subrange(0, i as int) =~= sv);
    }
    while i > 0
        invariant
            i <= segs@.len(),
            sv == segs@.map_values(|s: String| s@),
            sv == split_slash(p@),
            last_named(sv) == last_named(sv.subrange(0, i as int)),
        decreases i,
    {
        let k = i - 1;
        proof {
            assert(sv.subrange(0, i as int).drop_last() =~= sv.subrange(0, k as int));
            assert(sv[k as int] == segs@[k as int]@);
            reveal_strlit(".");
            reveal_strlit("..");
        }
        let seg = &segs[k];
        if seg.unicode_len() == 0 || str_eq(seg.as_str(), ".") {
            proof {
                if seg@.len() != 0 {
                    assert(seg@ =~= seq!['.']);
                }
            }
            i = k;
        } else if str_eq(seg.as_str(), "..") {
            proof {
                assert(seg@ =~= seq!['.', '.']);
            }
            return None;
        } else {
            proof {
                assert(!is_current_segment(seg@)) by {
                    if seg@ == seq!['.'] {
                        assert(seg@ =~= "."@);
                    }
                }
                assert(!is_parent_segment(seg@)) by {
                    if seg@ == seq!['.', '.'] {
                        assert(seg@ =~= ".."@);
                    }
                }
            }
            return Some(seg.clone());
        }
    }
    None
}

/// A usable attachment name: the file name of the caller's path, which must
/// not hold a separator or a NUL.
pub open spec fn attachment_name(filename: Seq<char>) -> Option<Seq<char>> {
    match file_name_of(filename) {
        Some(n) => if n.len() == 0 || n.contains('/') || n.contains('\\') || n.contains('\0') {
            None
        } else {
            Some(n)
        },
        None => None,
    }
}

/// Reduces a caller-supplied attachment filename to its basename, so the file
/// cannot land outside the session's `attachments/` directory.
pub fn sanitize_filename(filename: &str) -> (r: Result<String, StoreError>)
    ensures
        r matches Ok(n) ==> attachment_name(filename@) == Some(n@),
        r is Err <==> attachment_name(filename@) is None,
        r matches Err(e) ==> e == StoreError::Io(e->Io_0) && e->Io_0@ == if file_name_of(filename@) is None {
            "invalid attachment filename"@
        } else {
            "invalid attachment filename characters"@
        },
{
    let name = match file_name(filename) {
        Some(n) => n,
        None => return Err(StoreError::Io(to_owned_string("invalid attachment filename"))),
    };
    if name.unicode_len() == 0 || crate::strings::str_contains_char(name.as_str(), '/')
        || crate::strings::str_contains_char(name.as_str(), '\\') || crate::strings::str_contains_char(name.as_str(), '\0') {
        return Err(StoreError::Io(to_owned_string("invalid attachment filename characters")));
    }
    Ok(name)
}

/// The stem of a file name as `Path::file_stem` reads it: everything before
/// the last dot, unless the name has no dot or its only dot leads it.
pub open spec fn stem_of(name: Seq<char>) -> Seq<char> {
    match extension_of(name) {
        Some(e) => name.subrange(0, name.len() - e.len() - 1),
        None => name,
    }
}

proof fn lemma_extension_len(name: Seq<char>)
    ensures
        extension_of(name) matches Some(e) ==> e.len() + 2 <= name.len(),
{
    if exists|i: int| 0 < i < name.len() && name[i] == '.' {
        let w = choose|i: int| 0 < i < name.len() && name[i] == '.';
        lemma_last_dot(name, w);
        let i = choose|i: int| 0 < i < name.len() && name[i] == '.' && forall|j: int| i < j < name.len() ==> name[j] != '.';
        assert(0 < i < name.len());
    }
}

proof fn lemma_last_dot(name: Seq<char>, w: int)
    requires
        0 < w < name.len(),
        name[w] == '.',
    ensures
        exists|i: int| 0 < i < name.len() && name[i] == '.' && forall|j: int| i < j < name.len() ==> name[j] != '.',
    decreases name.len() - w,
{
    if exists|j: int| w < j < name.len() && name[j] == '.' {
        let j = choose|j: int| w < j < name.len() && name[j] == '.';
        lemma_last_dot(name, j);
    } else {
        assert(0 < w < name.len() && name[w] == '.' && forall|j: int| w < j < name.len() ==> name[j] != '.');
    }
}

/// The name tried on the `counter`-th attempt: the name itself first, then
/// `{stem} {counter}.{ext}` (or `{stem} {counter}` without an extension).
pub open spec fn candidate_name(name: Seq<char>, counter: nat) -> Seq<char> {
    if counter == 0 {
        name
    } else {
        match extension_of(name) {
            Some(e) => stem_of(name) + " "@ + decimal(counter) + "."@ + e,
            None => stem_of(name) + " "@ + decimal(counter),
        }
    }
}

/// The attachment name to try on the `counter`-th attempt.
pub fn attachment_candidate(name: &str, counter: u64) -> (r: String)
    ensures
        r@ == candidate_name(name@, counter as nat),
{
    if counter == 0 {
        return to_owned_string(name);
    }
    let n = name.unicode_len();
    let number = u64_to_decimal(counter);
    match extension(name) {
        Some(e) => {
            let elen = e.as_str().unicode_len();
            proof {
                assert(extension_of(name@) == Some(e@));
                lemma_extension_len(name@);
            }
            let stem_len = n - elen - 1;
            let stem = crate::strings::substring(name, 0, stem_len);
            let a = concat(stem.as_str(), " ");
            let b = concat(a.as_str(), number.as_str());
            let c = concat(b.as_str(), ".");
            concat(c.as_str(), e.as_str())
        },
        None => {
            let a = concat(name, " ");
            concat(a.as_str(), number.as_str())
        },
    }
}

/// A stored attachment: its final file name (the id note markdown refers to)
/// and its vault-relative path.
#[derive(Debug)]
pub struct SavedAttachment {
    pub attachment_id: String,
    pub relative_path: String,
}

/// The record of an attachment stored under `<session_dir>/attachments/`.
pub fn saved_attachment(session_dir: &str, file_name: String) -> (r: SavedAttachment)
    ensures
        r.attachment_id@ == file_name@,
        r.relative_path@ == session_dir@ + "/attachments/"@ + file_name@,
{
    let dir = concat(session_dir, "/attachments/");
    let relative_path = concat(dir.as_str(), file_name.as_str());
    SavedAttachment { attachment_id: file_name, relative_path }
}

/// The extensions the app reads a recording under.
pub open spec fn is_readable_audio_extension(e: Seq<char>) -> bool {
    e == "mp3"@ || e == "wav"@ || e == "ogg"@
}

/// The canonical name of a recording, `audio.<ext>` with the source's
/// lowercased extension, which must be one the app reads.
pub fn canonical_audio_file_name(source: &str) -> (r: Result<String, StoreError>)
    ensures
        match file_name_of(source@) {
            Some(n) => match extension_of(n) {
                Some(e) => if is_readable_audio_extension(ascii_lower(e)) {
                    r matches Ok(s) && s@ == "audio."@ + ascii_lower(e)
                } else {
                    r matches Err(err) && err == StoreError::Io(err->Io_0) && err->Io_0@ == "unsupported audio extension "@
                        + debug_quoted(ascii_lower(e)) + ": a recording stored under it would be invisible to the app"@
                },
                None => r matches Err(err) && err == StoreError::Io(err->Io_0)
                    && err->Io_0@ == "source audio path has no extension"@,
            },
            None => r matches Err(err) && err == StoreError::Io(err->Io_0)
                && err->Io_0@ == "source audio path has no extension"@,
        },
{
    let no_extension = "source audio path has no extension";
    let name = match file_name(source) {
        Some(n) => n,
        None => return Err(StoreError::Io(to_owned_string(no_extension))),
    };
    let ext = match extension(name.as_str()) {
        Some(e) => to_ascii_lowercase(e.as_str()),
        None => return Err(StoreError::Io(to_owned_string(no_extension))),
    };
    proof {
        reveal_strlit("mp3");
        reveal_strlit("wav");
        reveal_strlit("ogg");
    }
    if str_eq(ext.as_str(), "mp3") || str_eq(ext.as_str(), "wav") || str_eq(ext.as_str(), "ogg") {
        Ok(concat("audio.", ext.as_str()))
    } else {
        let quoted = debug_str(ext.as_str());
        let head = concat("unsupported audio extension ", quoted.as_str());
        Err(StoreError::Io(concat(head.as_str(), ": a recording stored under it would be invisible to the app")))
    }
}

/// Where a finished recording settles: a recording already in its session's
/// directory (`parent_is_resolved`, as the caller's same-file check found),
/// or in any directory named for the session, stays there; anything else is
/// moved into the resolved directory.
pub fn canonical_audio_dir(resolved_dir: &str, session_id: &str, source_parent: Option<&str>, parent_is_resolved: bool) -> (r: String)
    ensures
        match source_parent {
            Some(parent) => if parent_is_resolved || file_name_of(parent@) == Some(session_id@) {
                r@ == parent@
            } else {
                r@ == resolved_dir@
            },
            None => r@ == resolved_dir@,
        },
{
    match source_parent {
        Some(parent) => {
            let named = match file_name(parent) {
                Some(n) => str_eq(n.as_str(), session_id),
                None => false,
            };
            if parent_is_resolved || named {
                to_owned_string(parent)
            } else {
                to_owned_string(resolved_dir)
            }
        },
        None => to_owned_string(resolved_dir),
    }
}

/// Where a session's audio came from.
#[derive(Debug, Clone, Copy, PartialEq, Eq, Structural)]
pub enum AudioSource {
    /// Nothing tells: no recorded words and no recording start.
    Unknown,
    Recording,
    Import,
}

/// How a session's audio channels are laid out.
#[derive(Debug, Clone, Copy, PartialEq, Eq, Structural)]
pub enum AudioLayout {
    /// One mixed track.
    Mixed,
    /// Microphone and system audio on separate channels.
    MicSystem,
}

/// A session's audio provenance.
#[derive(Debug, Clone, Copy, PartialEq, Eq, Structural)]
pub struct SessionAudio {
    pub source: AudioSource,
    pub layout: AudioLayout,
}

/// What a session's audio is, from the capture source of each transcript
/// word: any imported word makes it an import (mixed); words that all came
/// from a recording, or no words at all in a session that started recording,
/// make it a recording (mic and system); anything else stays unknown (mixed).
pub open spec fn inferred_audio(started: bool, sources: Seq<Option<Seq<char>>>) -> SessionAudio {
    if sources.contains(Some("import"@)) {
        SessionAudio { source: AudioSource::Import, layout: AudioLayout::Mixed }
    } else if (sources.len() > 0 && forall|i: int| 0 <= i < sources.len() ==> #[trigger] sources[i] == Some("recording"@))
        || (sources.len() == 0 && started) {
        SessionAudio { source: AudioSource::Recording, layout: AudioLayout::MicSystem }
    } else {
        SessionAudio { source: AudioSource::Unknown, layout: AudioLayout::Mixed }
    }
}

/// Infers a session's audio from whether it started recording and the
/// capture source of each transcript word.
pub fn infer_audio(started: bool, sources: &Vec<Option<String>>) -> (r: SessionAudio)
    ensures
        r == inferred_audio(started, sources.deep_view()),
{
    let ghost sv = sources.deep_view();
    let mut any_import = false;
    let mut all_recording = true;
    let mut i: usize = 0;
    proof {
        reveal_strlit("import");
        reveal_strlit("recording");
    }
    while i < sources.len()
        invariant
            i <= sources.len(),
            sv == sources.deep_view(),
            any_import == exists|j: int| 0 <= j < i && sv[j] == Some("import"@),
            all_recording == forall|j: int| 0 <= j < i ==> #[trigger] sv[j] == Some("recording"@),
        decreases sources.len() - i,
    {
        proof {
            assert(sv[i as int] == sources@[i as int].deep_view());
        }
        match &sources[i] {
            Some(s) => {
                if str_eq(s.as_str(), "import") {
                    any_import = true;
                }
                if !str_eq(s.as_str(), "recording") {
                    all_recording = false;
                }
            },
            None => {
                all_recording = false;
            },
        }
        i = i + 1;
    }
    proof {
        if any_import {
            let j = choose|j: int| 0 <= j < sv.len() && sv[j] == Some("import"@);
            assert(sv.contains(Some("import"@)));
        }
        if sv.contains(Some("import"@)) {
            let j = choose|j: int| 0 <= j < sv.len() && sv[j] == Some("import"@);
        }
    }
    if any_import {
        SessionAudio { source: AudioSource::Import, layout: AudioLayout::Mixed }
    } else if (sources.len() > 0 && all_recording) || (sources.len() == 0 && started) {
        SessionAudio { source: AudioSource::Recording, layout: AudioLayout::MicSystem }
    } else {
        SessionAudio { source: AudioSource::Unknown, layout: AudioLayout::Mixed }
    }
}

/// A file in a session directory that marks it as holding session content
/// even without metadata: a markdown document (`.md` extension, as
/// `Path::extension` reads it) or the transcript file.
pub open spec fn is_session_content_name(name: Seq<char>) -> bool {
    extension_of(name) == Some("md"@) || name == "transcript.json"@
}

/// Whether a file name marks session content.
pub fn is_session_content_file(name: &str) -> (r: bool)
    ensures
        r == is_session_content_name(name@),
{
    proof {
        reveal_strlit("md");
        reveal_strlit("transcript.json");
    }
    let is_md = match extension(name) {
        Some(e) => str_eq(e.as_str(), "md"),
        None => false,
    };
    is_md || str_eq(name, "transcript.json")
}

/// An entry of `attachments/` counts as an attachment unless it is hidden.
pub fn is_attachment_entry(name: &str) -> (r: bool)
    ensures
        r == !seq_starts_with(name@, "."@),
{
    !str_starts_with(name, ".")
}

/// A file under `templates/` that the app once owned: the deleted-defaults
/// record, and every visible `.json` template.
pub open spec fn is_legacy_template_name(name: Seq<char>) -> bool {
    name == ".deleted-defaults.json"@ || (!seq_starts_with(name, "."@) && seq_ends_with(name, ".json"@))
}

/// Whether a file under `templates/` is retired to the trash.
pub fn is_legacy_template_file(name: &str) -> (r: bool)
    ensures
        r == is_legacy_template_name(name@),
{
    str_eq(name, ".deleted-defaults.json") || (!str_starts_with(name, ".") && str_ends_with(name, ".json"))
}

/// The stem of a live enhanced document in `enhanced/`: a `.md` file whose
/// stem is neither hidden (stale temporary files) nor a conflict backup
/// (`<stem>.conflict-<timestamp>.md`).
pub open spec fn live_doc_stem(name: Seq<char>) -> Option<Seq<char>> {
    if extension_of(name) == Some("md"@) {
        let stem = name.subrange(0, name.len() - 3);
        if seq_starts_with(stem, "."@) || seq_contains_seq(stem, ".conflict-"@) {
            None
        } else {
            Some(stem)
        }
    } else {
        None
    }
}

/// The document stem of a file in `enhanced/`, when it is a live document.
pub fn enhanced_doc_stem(name: &str) -> (r: Option<String>)
    ensures
        r is None <==> live_doc_stem(name@) is None,
        r matches Some(s) ==> live_doc_stem(name@) == Some(s@),
{
    proof {
        reveal_strlit("md");
    }
    let n = name.unicode_len();
    let is_md = match extension(name) {
        Some(e) => str_eq(e.as_str(), "md"),
        None => false,
    };
    if !is_md {
        return None;
    }
    let stem = substring(name, 0, n - 3);
    if str_starts_with(stem.as_str(), ".") || str_contains(stem.as_str(), ".conflict-") {
        None
    } else {
        Some(stem)
    }
}

/// The audio an import leaves: imported, one mixed track.
pub fn imported_audio() -> (r: SessionAudio)
    ensures
        r == (SessionAudio { source: AudioSource::Import, layout: AudioLayout::Mixed }),
{
    SessionAudio { source: AudioSource::Import, layout: AudioLayout::Mixed }
}

/// An audio import may not start while the session records.
pub fn check_audio_import(recording: bool) -> (r: Result<(), StoreError>)
    ensures
        recording ==> (r matches Err(e) && e == StoreError::Conflict(e->Conflict_0)
            && e->Conflict_0@ == "cannot import audio while recording"@),
        !recording ==> r is Ok,
{
    if recording {
        Err(StoreError::Conflict(to_owned_string("cannot import audio while recording")))
    } else {
        Ok(())
    }
}

/// A session's audio as its metadata resolves it: an interrupted import
/// (the pending flag set) must be redone first; recorded audio metadata is
/// returned as it is; otherwise the audio is inferred from the recording
/// start and the transcript words, and the second component says that it is
/// to be recorded in the metadata.
pub fn resolve_audio(import_pending: bool, stored: Option<SessionAudio>, started: bool, sources: &Vec<Option<String>>) -> (r: Result<(SessionAudio, bool), StoreError>)
    ensures
        import_pending ==> (r matches Err(e) && e == StoreError::Io(e->Io_0) && e->Io_0@
            == "Audio import was interrupted. Import the audio again before transcribing or recording."@),
        !import_pending ==> match stored {
            Some(a) => r == Ok::<(SessionAudio, bool), StoreError>((a, false)),
            None => r == Ok::<(SessionAudio, bool), StoreError>((inferred_audio(started, sources.deep_view()), true)),
        },
{
    if import_pending {
        return Err(StoreError::Io(to_owned_string(
            "Audio import was interrupted. Import the audio again before transcribing or recording.",
        )));
    }
    match stored {
        Some(a) => Ok((a, false)),
        None => Ok((infer_audio(started, sources), true)),
    }
}

} // verus!
