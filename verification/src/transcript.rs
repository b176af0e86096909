//! Transcripts: the per-session live buffer that recordings append to and the
//! debounced flusher drains, the merge rules of `transcript.json`, the summary
//! the index keeps per file, and the hints-only speaker reassignment.
//!
//! Words and hints carry a payload the logic never reads (timings, metadata,
//! JSON values); the logic sees only their ids, types and the integer keys by
//! which their channels and speaker indexes compare equal.

use vstd::prelude::*;
use vstd::string::*;

use crate::digest::{content_hash, le_value, sha256};
use crate::error::StoreError;
use crate::index::TranscriptSummary;
use crate::meta::vec_contains_str;
use crate::strings::{concat, str_eq, to_owned_string};

verus! {

/// How long the first debounced flush waits, in milliseconds.
pub const DEBOUNCE_MS: u64 = 1000;

/// The longest wait between flush retries, in milliseconds.
pub const RETRY_DELAY_CAP_MS: u64 = 30000;

/// The next wait of the retry loop: doubled, capped.
pub open spec fn spec_next_retry_delay(current: int) -> int {
    if 2 * current < RETRY_DELAY_CAP_MS {
        2 * current
    } else {
        RETRY_DELAY_CAP_MS as int
    }
}

/// Backoff for the debounced-flush retry loop: doubling spares a failing disk,
/// the cap keeps retries frequent, and nothing ever gives up.
pub fn next_retry_delay(current_ms: u64) -> (r: u64)
    requires
        current_ms <= u64::MAX / 2,
    ensures
        r == spec_next_retry_delay(current_ms as int),
{
    let doubled = current_ms * 2;
    if doubled < RETRY_DELAY_CAP_MS {
        doubled
    } else {
        RETRY_DELAY_CAP_MS
    }
}

/// The wait before the `n`-th retry, starting from the debounce.
pub open spec fn retry_delay_after(n: nat) -> int
    decreases n,
{
    if n == 0 {
        DEBOUNCE_MS as int
    } else {
        spec_next_retry_delay(retry_delay_after((n - 1) as nat))
    }
}

/// Retries never stop and never hammer: every wait of the loop is positive and
/// at most the cap, and the waits never shrink.
pub proof fn lemma_retry_delay_positive_and_capped(n: nat)
    ensures
        0 < retry_delay_after(n) <= RETRY_DELAY_CAP_MS,
        retry_delay_after(n) <= retry_delay_after(n + 1),
    decreases n,
{
    if n > 0 {
        lemma_retry_delay_positive_and_capped((n - 1) as nat);
    }
}

/// One transcript of a file, as the summary counts it.
pub struct TranscriptCount {
    pub id: String,
    pub word_count: u64,
}

/// Total words of a file's transcripts.
pub open spec fn total_words(ts: Seq<TranscriptCount>) -> int
    decreases ts.len(),
{
    if ts.len() == 0 {
        0
    } else {
        total_words(ts.drop_last()) + ts.last().word_count
    }
}

/// The summary the index keeps for a file with these transcripts and bytes.
pub open spec fn summary_of(bytes: Seq<u8>, ts: Seq<TranscriptCount>) -> crate::index::TranscriptSummaryView {
    crate::index::TranscriptSummaryView {
        transcript_ids: ts.map_values(|t: TranscriptCount| t.id@),
        has_words: exists|i: int| 0 <= i < ts.len() && #[trigger] ts[i].word_count > 0,
        word_count: total_words(ts) as u64,
        content_hash: le_value(sha256(bytes).subrange(0, 8)) as u64,
    }
}

proof fn lemma_total_words_monotone(ts: Seq<TranscriptCount>, k: int)
    requires
        0 <= k <= ts.len(),
    ensures
        total_words(ts.subrange(0, k)) <= total_words(ts),
        total_words(ts.subrange(0, k)) >= 0,
    decreases ts.len(),
{
    if ts.len() > 0 {
        if k == ts.len() {
            assert(ts.subrange(0, k) =~= ts);
            lemma_total_words_monotone(ts.drop_last(), k - 1);
            assert(ts.drop_last().subrange(0, k - 1) =~= ts.drop_last());
        } else {
            lemma_total_words_monotone(ts.drop_last(), k);
            assert(ts.drop_last().subrange(0, k) =~= ts.subrange(0, k));
        }
    }
}

/// The summary of a transcript file from its bytes and its transcripts.
pub fn summarize_transcripts(bytes: &[u8], transcripts: &Vec<TranscriptCount>) -> (r: TranscriptSummary)
    requires
        total_words(transcripts@) <= u64::MAX,
    ensures
        r.deep_view() == summary_of(bytes@, transcripts@),
{
    let ghost ts = transcripts@;
    let mut ids: Vec<String> = Vec::new();
    let mut has_words = false;
    let mut word_count: u64 = 0;
    let mut i: usize = 0;
    while i < transcripts.len()
        invariant
            i <= transcripts.len(),
            ts == transcripts@,
            total_words(ts) <= u64::MAX,
            ids.deep_view() == ts.subrange(0, i as int).map_values(|t: TranscriptCount| t.id@),
            has_words == exists|j: int| 0 <= j < i && #[trigger] ts[j].word_count > 0,
            word_count == total_words(ts.subrange(0, i as int)),
        decreases transcripts.len() - i,
    {
        proof {
            assert(ts.subrange(0, i + 1).drop_last() =~= ts.subrange(0, i as int));
            lemma_total_words_monotone(ts, i + 1);
        }
        let t = &transcripts[i];
        let ghost before = ids.deep_view();
        ids.push(t.id.clone());
        if t.word_count > 0 {
            has_words = true;
        }
        word_count = word_count + t.word_count;
        proof {
            assert(ts[i as int] == *t);
            assert(ids.deep_view() =~= before.push(ts[i as int].id@));
            assert(ids.deep_view() =~= ts.subrange(0, i + 1).map_values(|t: TranscriptCount| t.id@));
        }
        i = i + 1;
    }
    proof {
        assert(ts.subrange(0, ts.len() as int) =~= ts);
    }
    TranscriptSummary { transcript_ids: ids, has_words, word_count, content_hash: content_hash(bytes) }
}

/// The summary of a missing file: no transcripts, no words, hash zero.
pub fn empty_summary() -> (r: TranscriptSummary)
    ensures
        r.transcript_ids@.len() == 0,
        !r.has_words,
        r.word_count == 0,
        r.content_hash == 0,
{
    TranscriptSummary { transcript_ids: Vec::new(), has_words: false, word_count: 0, content_hash: 0 }
}

/// A buffered word: its id, if it has one, and the word itself.
pub struct LiveWord<W> {
    pub id: Option<String>,
    pub word: W,
}

/// What a recording appends: new words, ids of words they supersede, new
/// speaker hints, and the transcript they belong to.
pub struct TranscriptDelta<W, H> {
    pub transcript_id: String,
    pub new_words: Vec<LiveWord<W>>,
    pub replaced_ids: Vec<String>,
    pub new_hints: Vec<H>,
    /// Bit pattern of the recording's start time in milliseconds.
    pub started_at_ms_bits: u64,
}

/// A session's unflushed recording state.
pub struct LiveTranscriptBuffer<W, H> {
    pub transcript_id: String,
    /// Bit pattern of the recording's start time in milliseconds.
    pub started_at_ms_bits: u64,
    pub words: Vec<LiveWord<W>>,
    pub hints: Vec<H>,
    pub dirty: bool,
}

/// A word that one of `replaced` supersedes (a word without an id never is).
pub open spec fn is_replaced<W>(w: LiveWord<W>, replaced: Seq<Seq<char>>) -> bool {
    match w.id {
        Some(id) => replaced.contains(id@),
        None => false,
    }
}

/// The buffer's transcript moves to another id: its words and hints are dropped.
pub open spec fn switches_transcript<W, H>(buffer: LiveTranscriptBuffer<W, H>, transcript_id: Seq<char>) -> bool {
    buffer.transcript_id@.len() != 0 && buffer.transcript_id@ != transcript_id
}

/// The buffered words after a delta.
pub open spec fn words_after<W, H>(buffer: LiveTranscriptBuffer<W, H>, delta: TranscriptDelta<W, H>) -> Seq<LiveWord<W>> {
    let base = if switches_transcript(buffer, delta.transcript_id@) { Seq::empty() } else { buffer.words@ };
    base.filter(|w: LiveWord<W>| !is_replaced(w, delta.replaced_ids.deep_view())) + delta.new_words@
}

/// The buffered hints after a delta.
pub open spec fn hints_after<W, H>(buffer: LiveTranscriptBuffer<W, H>, delta: TranscriptDelta<W, H>) -> Seq<H> {
    let base = if switches_transcript(buffer, delta.transcript_id@) { Seq::empty() } else { buffer.hints@ };
    base + delta.new_hints@
}

impl<W, H> TranscriptDelta<W, H> {
    /// Nothing to buffer: no words, no replacements, no hints.
    pub fn is_empty(&self) -> (r: bool)
        ensures
            r == (self.new_words@.len() == 0 && self.replaced_ids@.len() == 0 && self.new_hints@.len() == 0),
    {
        self.new_words.len() == 0 && self.replaced_ids.len() == 0 && self.new_hints.len() == 0
    }
}

impl<W, H> LiveTranscriptBuffer<W, H> {
    /// A clean buffer with no transcript yet.
    pub fn new() -> (r: Self)
        ensures
            r.transcript_id@.len() == 0,
            r.started_at_ms_bits == 0,
            r.words@.len() == 0,
            r.hints@.len() == 0,
            !r.dirty,
    {
        LiveTranscriptBuffer {
            transcript_id: String::new(),
            started_at_ms_bits: 0,
            words: Vec::new(),
            hints: Vec::new(),
            dirty: false,
        }
    }

    /// A delta for another transcript arrives while this buffer holds unflushed
    /// changes: they must be persisted before the buffer switches.
    pub fn needs_flush_before_switch(&self, transcript_id: &str) -> (r: bool)
        ensures
            r == (self.dirty && switches_transcript(*self, transcript_id@)),
    {
        self.dirty && self.transcript_id.unicode_len() != 0 && !str_eq(self.transcript_id.as_str(), transcript_id)
    }

    /// Buffers a delta: switching transcripts drops the old words and hints,
    /// superseded words leave, new words and hints are appended, and the
    /// buffer turns dirty. Returns whether this append turned it dirty, that
    /// is, whether a flusher must be scheduled.
    pub fn apply_delta(&mut self, delta: TranscriptDelta<W, H>) -> (needs_flusher: bool)
        ensures
            final(self).transcript_id@ == delta.transcript_id@,
            final(self).started_at_ms_bits == delta.started_at_ms_bits,
            final(self).words@ == words_after(*old(self), delta),
            final(self).hints@ == hints_after(*old(self), delta),
            final(self).dirty,
            needs_flusher == !old(self).dirty,
    {
        let ghost o = *old(self);
        let ghost dg = delta;
        let TranscriptDelta { transcript_id, new_words, replaced_ids, new_hints, started_at_ms_bits } = delta;
        if self.transcript_id.unicode_len() != 0 && !str_eq(self.transcript_id.as_str(), transcript_id.as_str()) {
            self.words.clear();
            self.hints.clear();
        }
        let ghost base = self.words@;
        let ghost replaced = replaced_ids.deep_view();
        let ghost keep = |w: LiveWord<W>| !is_replaced(w, replaced);
        let mut rest: Vec<LiveWord<W>> = Vec::new();
        std::mem::swap(&mut rest, &mut self.words);
        let ghost n = base.len();
        let mut kept: Vec<LiveWord<W>> = Vec::new();
        while rest.len() > 0
            invariant
                n == base.len(),
                rest.len() <= n,
                rest@ == base.subrange(n - rest.len(), n as int),
                replaced == replaced_ids.deep_view(),
                keep == (|w: LiveWord<W>| !is_replaced(w, replaced)),
                kept@ == base.subrange(0, n - rest.len()).filter(keep),
            decreases rest.len(),
        {
            let ghost done = n - rest.len();
            let w = rest.remove(0);
            proof {
                assert(base[done] == w);
                assert(base.subrange(0, done + 1).drop_last() =~= base.subrange(0, done));
                assert(rest@ =~= base.subrange(n - rest.len(), n as int));
                reveal_with_fuel(Seq::<_>::filter, 1);
            }
            let superseded = match &w.id {
                Some(id) => vec_contains_str(&replaced_ids, id.as_str()),
                None => false,
            };
            if !superseded {
                kept.push(w);
            }
            proof {
                assert(kept@ =~= base.subrange(0, done + 1).filter(keep));
            }
        }
        proof {
            assert(base.subrange(0, n as int) =~= base);
        }
        let mut new_words = new_words;
        let mut new_hints = new_hints;
        kept.append(&mut new_words);
        self.words = kept;
        self.hints.append(&mut new_hints);
        self.transcript_id = transcript_id;
        self.started_at_ms_bits = started_at_ms_bits;
        let was_dirty = self.dirty;
        self.dirty = true;
        proof {
            assert(self.words@ =~= words_after(o, dg));
            assert(self.hints@ =~= hints_after(o, dg));
        }
        !was_dirty
    }

    /// Starts a flush: a clean buffer has nothing to persist; a dirty one is
    /// marked clean before the write, so an append racing the write turns it
    /// dirty again and schedules its own flusher.
    pub fn begin_flush(&mut self) -> (flush: bool)
        ensures
            flush == old(self).dirty,
            !final(self).dirty,
            final(self).transcript_id == old(self).transcript_id,
            final(self).started_at_ms_bits == old(self).started_at_ms_bits,
            final(self).words == old(self).words,
            final(self).hints == old(self).hints,
    {
        let flush = self.dirty;
        self.dirty = false;
        flush
    }

    /// A failed persist leaves the words only in memory: the buffer turns dirty
    /// again so a retry picks it up.
    pub fn flush_failed(&mut self)
        ensures
            final(self).dirty,
            final(self).transcript_id == old(self).transcript_id,
            final(self).started_at_ms_bits == old(self).started_at_ms_bits,
            final(self).words == old(self).words,
            final(self).hints == old(self).hints,
    {
        self.dirty = true;
    }

    /// A batch write of this transcript supersedes whatever was buffered for
    /// it: the buffer is emptied and marked clean. Other transcripts' buffers
    /// are left alone.
    pub fn clear_for_batch(&mut self, transcript_id: &str)
        ensures
            old(self).transcript_id@ == transcript_id@ ==> final(self).words@.len() == 0
                && final(self).hints@.len() == 0 && !final(self).dirty,
            old(self).transcript_id@ != transcript_id@ ==> final(self).words == old(self).words
                && final(self).hints == old(self).hints && final(self).dirty == old(self).dirty,
            final(self).transcript_id == old(self).transcript_id,
            final(self).started_at_ms_bits == old(self).started_at_ms_bits,
    {
        if str_eq(self.transcript_id.as_str(), transcript_id) {
            self.words.clear();
            self.hints.clear();
            self.dirty = false;
        }
    }

    /// Replacing the session's whole transcript set supersedes every buffered
    /// transcript: the buffer is emptied and marked clean.
    pub fn clear_all(&mut self)
        ensures
            final(self).words@.len() == 0,
            final(self).hints@.len() == 0,
            !final(self).dirty,
            final(self).transcript_id == old(self).transcript_id,
            final(self).started_at_ms_bits == old(self).started_at_ms_bits,
    {
        self.words.clear();
        self.hints.clear();
        self.dirty = false;
    }
}

/// Buffering never loses a buffered word silently: after a delta for the same
/// transcript, every buffered word that the delta does not supersede is still
/// there, in order, ahead of the new words.
pub proof fn lemma_same_transcript_keeps_words<W, H>(buffer: LiveTranscriptBuffer<W, H>, delta: TranscriptDelta<W, H>)
    requires
        !switches_transcript(buffer, delta.transcript_id@),
        delta.replaced_ids@.len() == 0,
    ensures
        words_after(buffer, delta) == buffer.words@ + delta.new_words@,
        hints_after(buffer, delta) == buffer.hints@ + delta.new_hints@,
{
    let keep = |w: LiveWord<W>| !is_replaced(w, delta.replaced_ids.deep_view());
    assert forall|i: int| 0 <= i < buffer.words@.len() implies keep(#[trigger] buffer.words@[i]) by {
        match buffer.words@[i].id {
            Some(id) => {
                assert(!delta.replaced_ids.deep_view().contains(id@));
            },
            None => {},
        }
    }
    assert(buffer.words@.filter(keep) =~= buffer.words@) by {
        lemma_filter_all(buffer.words@, keep);
    }
}

proof fn lemma_filter_all<A>(s: Seq<A>, pred: spec_fn(A) -> bool)
    requires
        forall|i: int| 0 <= i < s.len() ==> pred(#[trigger] s[i]),
    ensures
        s.filter(pred) == s,
    decreases s.len(),
{
    reveal_with_fuel(Seq::<_>::filter, 1);
    if s.len() > 0 {
        let p = s.drop_last();
        assert forall|i: int| 0 <= i < p.len() implies pred(#[trigger] p[i]) by {
            assert(p[i] == s[i]);
        }
        lemma_filter_all(p, pred);
        assert(pred(s[s.len() - 1]));
        assert(s.filter(pred) =~= s);
    }
}

/// Whether replacing the session's transcripts with `incoming_id` drops a
/// transcript the file holds today (then the old file goes to the trash).
pub fn loses_content(existing_ids: &Vec<String>, incoming_id: &str) -> (r: bool)
    ensures
        r == exists|i: int| 0 <= i < existing_ids@.len() && #[trigger] existing_ids@[i]@ != incoming_id@,
{
    let mut i: usize = 0;
    while i < existing_ids.len()
        invariant
            i <= existing_ids.len(),
            forall|j: int| 0 <= j < i ==> #[trigger] existing_ids@[j]@ == incoming_id@,
        decreases existing_ids.len() - i,
    {
        if !str_eq(existing_ids[i].as_str(), incoming_id) {
            return true;
        }
        i = i + 1;
    }
    false
}

/// Where a persist lands in the file: the first transcript with that id, or
/// `None` to append it.
pub fn transcript_position(ids: &Vec<String>, transcript_id: &str) -> (r: Option<usize>)
    ensures
        r matches Some(i) ==> i < ids@.len() && ids@[i as int]@ == transcript_id@ && forall|j: int|
            0 <= j < i ==> #[trigger] ids@[j]@ != transcript_id@,
        r is None ==> forall|j: int| 0 <= j < ids@.len() ==> #[trigger] ids@[j]@ != transcript_id@,
{
    let mut i: usize = 0;
    while i < ids.len()
        invariant
            i <= ids.len(),
            forall|j: int| 0 <= j < i ==> #[trigger] ids@[j]@ != transcript_id@,
        decreases ids.len() - i,
    {
        if str_eq(ids[i].as_str(), transcript_id) {
            return Some(i);
        }
        i = i + 1;
    }
    None
}

/// The error for a speaker assignment on a transcript no file holds.
pub fn missing_transcript_error(transcript_id: &str) -> (r: StoreError)
    ensures
        r == StoreError::Io(r->Io_0),
        r->Io_0@ == "cannot assign speaker: transcript "@ + transcript_id@ + " does not exist"@,
{
    let head = concat("cannot assign speaker: transcript ", transcript_id);
    StoreError::Io(concat(head.as_str(), " does not exist"))
}

/// A word as the speaker reassignment sees it: its id and its channel's key.
pub struct WordRef {
    pub id: Option<String>,
    pub channel: u64,
}

/// A speaker hint as the reassignment sees it, with the hint itself carried
/// along. `speaker_index` is the speaker index the hint's value holds, when it
/// holds one.
pub struct HintEntry<P> {
    pub id: Option<String>,
    pub word_id: String,
    pub hint_type: String,
    pub speaker_index: Option<u64>,
    pub hint: P,
}

/// The channel of the word with this id (the last one, when ids repeat).
pub open spec fn word_channel(words: Seq<WordRef>, id: Seq<char>) -> Option<u64>
    decreases words.len(),
{
    if words.len() == 0 {
        None
    } else if words.last().id matches Some(w) && w@ == id {
        Some(words.last().channel)
    } else {
        word_channel(words.drop_last(), id)
    }
}

pub open spec fn is_provider_hint<P>(h: HintEntry<P>) -> bool {
    h.hint_type@ == "provider_speaker_index"@
}

pub open spec fn is_label_hint<P>(h: HintEntry<P>) -> bool {
    h.hint_type@ == "speaker_label"@
}

/// The provider speaker index of a word: the first provider hint anchored to
/// it decides.
pub open spec fn provider_index_for<P>(hints: Seq<HintEntry<P>>, word_id: Seq<char>) -> Option<u64>
    decreases hints.len(),
{
    if hints.len() == 0 {
        None
    } else if is_provider_hint(hints[0]) && hints[0].word_id@ == word_id {
        hints[0].speaker_index
    } else {
        provider_index_for(hints.drop_first(), word_id)
    }
}

/// The provider speaker indexes seen on a channel.
pub open spec fn channel_indexes<P>(hints: Seq<HintEntry<P>>, words: Seq<WordRef>, channel: u64) -> Set<u64> {
    Set::new(|k: u64| exists|i: int| 0 <= i < hints.len() && is_provider_hint(#[trigger] hints[i])
        && word_channel(words, hints[i].word_id@) == Some(channel)
        && provider_index_for(hints, hints[i].word_id@) == Some(k))
}

/// A channel is diarized when its provider hints name at least two speakers.
pub open spec fn channel_is_diarized<P>(hints: Seq<HintEntry<P>>, words: Seq<WordRef>, channel: u64) -> bool {
    exists|a: u64, b: u64| a != b && #[trigger] channel_indexes(hints, words, channel).contains(a)
        && #[trigger] channel_indexes(hints, words, channel).contains(b)
}

/// Whether an existing hint survives a new speaker assignment.
pub open spec fn hint_survives<P>(
    h: HintEntry<P>,
    hints: Seq<HintEntry<P>>,
    words: Seq<WordRef>,
    channel: u64,
    speaker_index: Option<u64>,
    new_id: Seq<char>,
    diarized: bool,
) -> bool {
    if !is_label_hint(h) {
        true
    } else if h.id matches Some(i) && i@ == new_id {
        false
    } else {
        match word_channel(words, h.word_id@) {
            None => true,
            Some(c) => if c != channel {
                true
            } else {
                let existing = provider_index_for(hints, h.word_id@);
                let conflicts = if diarized {
                    existing == speaker_index
                } else {
                    match (existing, speaker_index) {
                        (Some(l), Some(r)) => l == r,
                        _ => true,
                    }
                };
                !conflicts
            },
        }
    }
}

/// The id of the label hint anchored to a word.
pub fn speaker_label_hint_id(anchor_word_id: &str) -> (r: String)
    ensures
        r@ == anchor_word_id@ + ":speaker_label"@,
{
    concat(anchor_word_id, ":speaker_label")
}

fn find_word_channel(words: &Vec<WordRef>, id: &str) -> (r: Option<u64>)
    ensures
        r == word_channel(words@, id@),
{
    let mut i: usize = words.len();
    proof {
        assert(words@.subrange(0, i as int) =~= words@);
    }
    while i > 0
        invariant
            i <= words.len(),
            word_channel(words@, id@) == word_channel(words@.subrange(0, i as int), id@),
        decreases i,
    {
        let k = i - 1;
        proof {
            assert(words@.subrange(0, i as int).drop_last() =~= words@.subrange(0, k as int));
        }
        match &words[k].id {
            Some(w) => {
                if str_eq(w.as_str(), id) {
                    return Some(words[k].channel);
                }
            },
            None => {},
        }
        i = k;
    }
    None
}

/// The provider speaker index of a word, from the first provider hint
/// anchored to it.
pub fn provider_speaker_index_for_word<P>(hints: &Vec<HintEntry<P>>, word_id: &str) -> (r: Option<u64>)
    ensures
        r == provider_index_for(hints@, word_id@),
{
    let mut i: usize = 0;
    proof {
        assert(hints@.subrange(0, hints@.len() as int) =~= hints@);
    }
    while i < hints.len()
        invariant
            i <= hints.len(),
            provider_index_for(hints@, word_id@) == provider_index_for(hints@.subrange(i as int, hints@.len() as int), word_id@),
        decreases hints.len() - i,
    {
        proof {
            let rest = hints@.subrange(i as int, hints@.len() as int);
            assert(rest.drop_first() =~= hints@.subrange(i + 1, hints@.len() as int));
            assert(rest[0] == hints@[i as int]);
            reveal_strlit("provider_speaker_index");
        }
        let h = &hints[i];
        if str_eq(h.hint_type.as_str(), "provider_speaker_index") && str_eq(h.word_id.as_str(), word_id) {
            return h.speaker_index;
        }
        i = i + 1;
    }
    None
}

/// Whether the channel is diarized, computed by collecting its distinct
/// provider speaker indexes.
fn diarized<P>(hints: &Vec<HintEntry<P>>, words: &Vec<WordRef>, channel: u64) -> (r: bool)
    ensures
        r == channel_is_diarized(hints@, words@, channel),
{
    let ghost target = channel_indexes(hints@, words@, channel);
    let mut seen: Vec<u64> = Vec::new();
    let mut i: usize = 0;
    while i < hints.len()
        invariant
            i <= hints.len(),
            target == channel_indexes(hints@, words@, channel),
            seen@.no_duplicates(),
            forall|k: u64| #[trigger] seen@.contains(k) <==> exists|j: int| 0 <= j < i && is_provider_hint(#[trigger] hints@[j])
                && word_channel(words@, hints@[j].word_id@) == Some(channel)
                && provider_index_for(hints@, hints@[j].word_id@) == Some(k),
        decreases hints.len() - i,
    {
        let h = &hints[i];
        proof {
            reveal_strlit("provider_speaker_index");
        }
        let on_channel = str_eq(h.hint_type.as_str(), "provider_speaker_index") && match find_word_channel(words, h.word_id.as_str()) {
            Some(c) => c == channel,
            None => false,
        };
        let ghost before = seen@;
        if on_channel {
            match provider_speaker_index_for_word(hints, h.word_id.as_str()) {
                Some(k) => {
                    let mut present = false;
                    let mut t: usize = 0;
                    while t < seen.len()
                        invariant
                            t <= seen.len(),
                            present == exists|u: int| 0 <= u < t && seen@[u] == k,
                        decreases seen.len() - t,
                    {
                        if seen[t] == k {
                            present = true;
                        }
                        t = t + 1;
                    }
                    if !present {
                        seen.push(k);
                        proof {
                            assert forall|a: int, b: int| 0 <= a < b < seen@.len() implies seen@[a] != seen@[b] by {
                                if b == seen@.len() - 1 {
                                    assert(seen@[a] == before[a]);
                                } else {
                                    assert(seen@[a] == before[a] && seen@[b] == before[b]);
                                }
                            }
                        }
                    }
                },
                None => {},
            }
        }
        proof {
            assert forall|k: u64| #[trigger] seen@.contains(k) <==> exists|j: int| 0 <= j < i + 1 && is_provider_hint(#[trigger] hints@[j])
                && word_channel(words@, hints@[j].word_id@) == Some(channel)
                && provider_index_for(hints@, hints@[j].word_id@) == Some(k) by {
                if seen@.contains(k) && !before.contains(k) {
                    assert(seen@[seen@.len() - 1] == k || exists|u: int| 0 <= u < before.len() && before[u] == k) by {
                        let u = choose|u: int| 0 <= u < seen@.len() && seen@[u] == k;
                        if u < before.len() {
                            assert(seen@[u] == before[u]);
                        }
                    }
                    assert(hints@[i as int] == *h);
                }
                if before.contains(k) {
                    let u = choose|u: int| 0 <= u < before.len() && before[u] == k;
                    assert(seen@[u] == k);
                }
                if exists|j: int| 0 <= j < i + 1 && is_provider_hint(#[trigger] hints@[j])
                    && word_channel(words@, hints@[j].word_id@) == Some(channel)
                    && provider_index_for(hints@, hints@[j].word_id@) == Some(k) {
                    let j = choose|j: int| 0 <= j < i + 1 && is_provider_hint(#[trigger] hints@[j])
                        && word_channel(words@, hints@[j].word_id@) == Some(channel)
                        && provider_index_for(hints@, hints@[j].word_id@) == Some(k);
                    if j == i {
                        assert(hints@[i as int] == *h);
                        if !before.contains(k) {
                            assert(seen@[seen@.len() - 1] == k);
                        }
                    }
                }
            }
        }
        i = i + 1;
    }
    proof {
        assert forall|k: u64| #[trigger] seen@.contains(k) <==> target.contains(k) by {}
    }
    if seen.len() >= 2 {
        proof {
            assert(seen@.contains(seen@[0]) && seen@.contains(seen@[1]));
            assert(target.contains(seen@[0]) && target.contains(seen@[1]));
        }
        true
    } else {
        proof {
            if channel_is_diarized(hints@, words@, channel) {
                let (a, b) = choose|a: u64, b: u64| a != b && #[trigger] target.contains(a) && #[trigger] target.contains(b);
                assert(seen@.contains(a) && seen@.contains(b));
                let ia = choose|u: int| 0 <= u < seen@.len() && seen@[u] == a;
                let ib = choose|u: int| 0 <= u < seen@.len() && seen@[u] == b;
                assert(ia != ib);
            }
        }
        false
    }
}

/// The hints a speaker assignment keeps, in order: every hint but the label
/// hints it supersedes. The new label hint, with id
/// `speaker_label_hint_id(anchor)`, is appended by the caller.
///
/// A label hint goes when it has the new hint's id, or when its anchor word
/// sits on the same channel and its scope conflicts: on an undiarized channel
/// a missing speaker index on either side means the whole channel; on a
/// diarized channel (two or more provider speaker indexes) only an exact scope
/// match conflicts. Hints anchored to unknown words stay.
pub fn retain_hints_for_assignment<P>(
    hints: Vec<HintEntry<P>>,
    words: &Vec<WordRef>,
    channel: u64,
    speaker_index: Option<u64>,
    new_id: &str,
) -> (kept: Vec<HintEntry<P>>)
    ensures
        kept@ == hints@.filter(
            |h: HintEntry<P>| hint_survives(h, hints@, words@, channel, speaker_index, new_id@,
                channel_is_diarized(hints@, words@, channel)),
        ),
{
    let ghost all = hints@;
    let is_diarized = diarized(&hints, words, channel);
    let ghost pred = |h: HintEntry<P>| hint_survives(h, all, words@, channel, speaker_index, new_id@, is_diarized);
    let mut decisions: Vec<bool> = Vec::new();
    let mut i: usize = 0;
    while i < hints.len()
        invariant
            i <= hints.len(),
            all == hints@,
            is_diarized == channel_is_diarized(all, words@, channel),
            pred == (|h: HintEntry<P>| hint_survives(h, all, words@, channel, speaker_index, new_id@, is_diarized)),
            decisions@.len() == i,
            forall|j: int| 0 <= j < i ==> #[trigger] decisions@[j] == pred(all[j]),
        decreases hints.len() - i,
    {
        let h = &hints[i];
        proof {
            reveal_strlit("speaker_label");
        }
        let survives = if !str_eq(h.hint_type.as_str(), "speaker_label") {
            true
        } else if match &h.id {
            Some(id) => str_eq(id.as_str(), new_id),
            None => false,
        } {
            false
        } else {
            match find_word_channel(words, h.word_id.as_str()) {
                None => true,
                Some(c) => if c != channel {
                    true
                } else {
                    let existing = provider_speaker_index_for_word(&hints, h.word_id.as_str());
                    let conflicts = if is_diarized {
                        match (existing, speaker_index) {
                            (Some(l), Some(r)) => l == r,
                            (None, None) => true,
                            _ => false,
                        }
                    } else {
                        match (existing, speaker_index) {
                            (Some(l), Some(r)) => l == r,
                            _ => true,
                        }
                    };
                    !conflicts
                },
            }
        };
        decisions.push(survives);
        proof {
            assert(all[i as int] == *h);
        }
        i = i + 1;
    }
    let ghost n = all.len();
    let mut rest = hints;
    let mut kept: Vec<HintEntry<P>> = Vec::new();
    while rest.len() > 0
        invariant
            n == all.len(),
            decisions@.len() == n,
            rest.len() <= n,
            rest@ == all.subrange(n - rest.len(), n as int),
            forall|j: int| 0 <= j < n ==> #[trigger] decisions@[j] == pred(all[j]),
            kept@ == all.subrange(0, n - rest.len()).filter(pred),
        decreases rest.len(),
    {
        let done = decisions.len() - rest.len();
        let h = rest.remove(0);
        proof {
            assert(all[done as int] == h);
            assert(all.subrange(0, done + 1).drop_last() =~= all.subrange(0, done as int));
            assert(rest@ =~= all.subrange(n - rest.len(), n as int));
            reveal_with_fuel(Seq::<_>::filter, 1);
        }
        if decisions[done] {
            kept.push(h);
        }
        proof {
            assert(kept@ =~= all.subrange(0, done + 1).filter(pred));
        }
    }
    proof {
        assert(all.subrange(0, n as int) =~= all);
    }
    kept
}

/// A speaker assignment's new hint list: the hints it keeps, in their order,
/// then the new label hint, with id `speaker_label_hint_id(anchor)`, anchored
/// to the anchor word and carrying the label. The words are not touched.
pub fn assign_speaker_hints<P>(
    hints: Vec<HintEntry<P>>,
    words: &Vec<WordRef>,
    channel: u64,
    speaker_index: Option<u64>,
    anchor_word_id: &str,
    label: P,
) -> (r: Vec<HintEntry<P>>)
    ensures
        r@.len() == hints@.filter(
            |h: HintEntry<P>| hint_survives(h, hints@, words@, channel, speaker_index, anchor_word_id@ + ":speaker_label"@,
                channel_is_diarized(hints@, words@, channel)),
        ).len() + 1,
        r@.drop_last() == hints@.filter(
            |h: HintEntry<P>| hint_survives(h, hints@, words@, channel, speaker_index, anchor_word_id@ + ":speaker_label"@,
                channel_is_diarized(hints@, words@, channel)),
        ),
        r@.last().id matches Some(i) && i@ == anchor_word_id@ + ":speaker_label"@,
        r@.last().word_id@ == anchor_word_id@,
        r@.last().hint_type@ == "speaker_label"@,
        r@.last().speaker_index is None,
        r@.last().hint == label,
{
    let new_id = speaker_label_hint_id(anchor_word_id);
    let mut kept = retain_hints_for_assignment(hints, words, channel, speaker_index, new_id.as_str());
    let ghost before = kept@;
    proof {
        reveal_strlit("speaker_label");
    }
    kept.push(HintEntry {
        id: Some(new_id),
        word_id: to_owned_string(anchor_word_id),
        hint_type: to_owned_string("speaker_label"),
        speaker_index: None,
        hint: label,
    });
    assert(kept@.drop_last() =~= before);
    kept
}

} // verus!
