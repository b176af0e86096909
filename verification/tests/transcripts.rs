use vault_write::digest::content_hash;
use vault_write::transcript::{
    loses_content, missing_transcript_error, provider_speaker_index_for_word,
    retain_hints_for_assignment, speaker_label_hint_id, summarize_transcripts, transcript_position,
    HintEntry, LiveTranscriptBuffer, LiveWord, TranscriptCount, TranscriptDelta, WordRef,
};

fn word(id: &str, text: &str) -> LiveWord<String> {
    LiveWord {
        id: Some(id.to_string()),
        word: text.to_string(),
    }
}

fn delta(transcript_id: &str, words: &[(&str, &str)], replaced: &[&str]) -> TranscriptDelta<String, String> {
    TranscriptDelta {
        transcript_id: transcript_id.to_string(),
        new_words: words.iter().map(|(i, t)| word(i, t)).collect(),
        replaced_ids: replaced.iter().map(|s| s.to_string()).collect(),
        new_hints: vec![],
        started_at_ms_bits: 1000f64.to_bits(),
    }
}

fn texts(buffer: &LiveTranscriptBuffer<String, String>) -> Vec<&str> {
    buffer.words.iter().map(|w| w.word.as_str()).collect()
}

#[test]
fn first_append_schedules_one_flusher_and_later_ones_ride_along() {
    let mut buffer = LiveTranscriptBuffer::new();
    assert!(buffer.apply_delta(delta("t1", &[("w0", "hello")], &[])));
    assert!(!buffer.apply_delta(delta("t1", &[("w1", "world")], &[])));
    assert_eq!(texts(&buffer), vec!["hello", "world"]);
    assert!(buffer.dirty);
    assert_eq!(f64::from_bits(buffer.started_at_ms_bits), 1000.0);
}

#[test]
fn replaced_ids_remove_superseded_words_before_appending() {
    let mut buffer = LiveTranscriptBuffer::new();
    buffer.apply_delta(delta("t1", &[("w0", "helo"), ("w1", "wrld")], &[]));
    buffer.apply_delta(delta("t1", &[("w2", "hello")], &["w0"]));
    assert_eq!(texts(&buffer), vec!["wrld", "hello"]);
    let mut anonymous = LiveTranscriptBuffer::new();
    anonymous.apply_delta(TranscriptDelta {
        transcript_id: "t1".to_string(),
        new_words: vec![LiveWord { id: None, word: "x".to_string() }],
        replaced_ids: vec![],
        new_hints: vec![],
        started_at_ms_bits: 0,
    });
    anonymous.apply_delta(delta("t1", &[], &["x"]));
    assert_eq!(texts(&anonymous), vec!["x"], "a word without an id is never superseded");
}

#[test]
fn switching_transcripts_needs_a_flush_only_while_dirty() {
    let mut buffer = LiveTranscriptBuffer::new();
    assert!(!buffer.needs_flush_before_switch("t1"));
    buffer.apply_delta(delta("t1", &[("w0", "old")], &[]));
    assert!(!buffer.needs_flush_before_switch("t1"));
    assert!(buffer.needs_flush_before_switch("t2"));
    assert!(buffer.begin_flush());
    assert!(!buffer.begin_flush(), "a clean buffer has nothing to flush");
    assert!(!buffer.needs_flush_before_switch("t2"));
    assert!(buffer.apply_delta(delta("t2", &[("w0", "new")], &[])));
    assert_eq!(texts(&buffer), vec!["new"], "the old transcript's words do not carry over");
    assert_eq!(buffer.transcript_id, "t2");
}

#[test]
fn a_failed_flush_leaves_the_buffer_dirty_for_retry() {
    let mut buffer = LiveTranscriptBuffer::new();
    buffer.apply_delta(delta("t1", &[("w0", "a")], &[]));
    assert!(buffer.begin_flush());
    buffer.flush_failed();
    assert!(buffer.dirty);
    assert_eq!(texts(&buffer), vec!["a"]);
}

#[test]
fn batch_writes_supersede_only_their_own_transcript() {
    let mut buffer = LiveTranscriptBuffer::new();
    buffer.apply_delta(delta("t1", &[("w0", "a")], &[]));
    buffer.clear_for_batch("t2");
    assert!(buffer.dirty);
    assert_eq!(texts(&buffer), vec!["a"]);
    buffer.clear_for_batch("t1");
    assert!(!buffer.dirty);
    assert!(buffer.words.is_empty());
    buffer.apply_delta(delta("t1", &[("w1", "b")], &[]));
    buffer.clear_all();
    assert!(!buffer.dirty && buffer.words.is_empty());
}

#[test]
fn empty_deltas_are_recognized() {
    assert!(delta("t1", &[], &[]).is_empty());
    assert!(!delta("t1", &[], &["w0"]).is_empty());
}

#[test]
fn merge_position_and_supersede_detection() {
    let ids = vec!["a".to_string(), "b".to_string(), "b".to_string()];
    assert_eq!(transcript_position(&ids, "b"), Some(1));
    assert_eq!(transcript_position(&ids, "c"), None);
    assert!(loses_content(&ids, "a"));
    assert!(!loses_content(&vec!["a".to_string()], "a"));
    assert!(!loses_content(&vec![], "a"));
}

#[test]
fn summaries_count_ids_words_and_hash_the_bytes() {
    let bytes = b"{\"transcripts\":[]}";
    let summary = summarize_transcripts(
        bytes,
        &vec![
            TranscriptCount { id: "t1".to_string(), word_count: 0 },
            TranscriptCount { id: "t2".to_string(), word_count: 5 },
        ],
    );
    assert_eq!(summary.transcript_ids, vec!["t1", "t2"]);
    assert!(summary.has_words);
    assert_eq!(summary.word_count, 5);
    assert_eq!(summary.content_hash, content_hash(bytes));
    assert_ne!(content_hash(b"a"), content_hash(b"b"));
    let empty = summarize_transcripts(b"", &vec![TranscriptCount { id: "t".to_string(), word_count: 0 }]);
    assert!(!empty.has_words);
}

#[test]
fn content_hash_reads_the_digest_little_endian() {
    // SHA-256("abc") starts ba 78 16 bf 8f 01 cf ea.
    assert_eq!(content_hash(b"abc"), u64::from_le_bytes([0xba, 0x78, 0x16, 0xbf, 0x8f, 0x01, 0xcf, 0xea]));
}

#[test]
fn the_missing_transcript_error_names_the_transcript() {
    let err = missing_transcript_error("nope");
    assert!(err.to_string().contains("does not exist"));
    assert_eq!(err.to_string(), "I/O error: cannot assign speaker: transcript nope does not exist");
}

fn key(x: f64) -> u64 {
    if x == 0.0 { 0.0f64.to_bits() } else { x.to_bits() }
}

fn words(ws: &[(&str, f64)]) -> Vec<WordRef> {
    ws.iter()
        .map(|(id, ch)| WordRef { id: Some(id.to_string()), channel: key(*ch) })
        .collect()
}

fn label(word_id: &str) -> HintEntry<String> {
    HintEntry {
        id: Some(format!("{word_id}:speaker_label")),
        word_id: word_id.to_string(),
        hint_type: "speaker_label".to_string(),
        speaker_index: None,
        hint: format!("{word_id}:speaker_label"),
    }
}

fn provider(word_id: &str, index: f64) -> HintEntry<String> {
    HintEntry {
        id: Some(format!("{word_id}:provider_speaker_index")),
        word_id: word_id.to_string(),
        hint_type: "provider_speaker_index".to_string(),
        speaker_index: Some(key(index)),
        hint: format!("{word_id}:provider_speaker_index"),
    }
}

fn kept(hints: Vec<HintEntry<String>>, ws: Vec<WordRef>, channel: f64, index: Option<f64>, anchor: &str) -> Vec<String> {
    let new_id = speaker_label_hint_id(anchor);
    retain_hints_for_assignment(hints, &ws, key(channel), index.map(key), &new_id)
        .into_iter()
        .map(|h| h.hint)
        .collect()
}

#[test]
fn reassignment_replaces_the_stale_label_on_the_same_channel() {
    let ws = words(&[("w0", 0.0), ("w1", 0.0)]);
    let out = kept(vec![label("w0")], ws, 0.0, None, "w1");
    assert!(out.is_empty());
}

#[test]
fn reassignment_keeps_labels_on_other_channels_and_unknown_words() {
    let ws = words(&[("w0", 0.0), ("w1", 1.0)]);
    let out = kept(vec![label("w0"), label("gone")], ws, 1.0, None, "w1");
    assert_eq!(out, vec!["w0:speaker_label", "gone:speaker_label"]);
}

#[test]
fn reassignment_drops_the_hint_with_the_new_id() {
    let ws = words(&[("w0", 0.0)]);
    let out = kept(vec![label("w0")], ws, 5.0, None, "w0");
    assert!(out.is_empty());
}

#[test]
fn indexed_assignment_evicts_only_same_index() {
    let ws = words(&[("idx1-word", 1.0), ("idx2-word", 1.0)]);
    let hints = vec![
        provider("idx1-word", 1.0),
        label("idx1-word"),
        provider("idx2-word", 2.0),
        label("idx2-word"),
    ];
    let out = kept(hints, ws, 1.0, Some(2.0), "idx2-word");
    assert_eq!(
        out,
        vec![
            "idx1-word:provider_speaker_index",
            "idx1-word:speaker_label",
            "idx2-word:provider_speaker_index",
        ]
    );
}

#[test]
fn indexed_assignment_preserves_channel_fallback_on_a_diarized_channel() {
    let ws = words(&[("a", 1.0), ("b", 1.0), ("gap", 1.0)]);
    let hints = vec![provider("a", 1.0), provider("b", 2.0), label("gap")];
    let out = kept(hints, ws, 1.0, Some(1.0), "a");
    assert_eq!(out, vec!["a:provider_speaker_index", "b:provider_speaker_index", "gap:speaker_label"]);
}

#[test]
fn channel_assignment_on_undiarized_channel_evicts_channel() {
    let ws = words(&[("a", 1.0), ("gap", 1.0)]);
    let hints = vec![provider("a", 1.0), label("a"), label("gap")];
    let out = kept(hints, ws, 1.0, None, "gap2");
    assert_eq!(out, vec!["a:provider_speaker_index"]);
}

#[test]
fn the_first_provider_hint_of_a_word_decides_its_index() {
    let hints = vec![provider("w", 3.0), provider("w", 4.0)];
    assert_eq!(provider_speaker_index_for_word(&hints, "w"), Some(key(3.0)));
    assert_eq!(provider_speaker_index_for_word(&hints, "x"), None);
}
