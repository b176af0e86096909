//! One-pass vault statistics for the About dialog: counts from the index,
//! recording presence and size from the caller's disk pass, and a per-year
//! breakdown in ascending year order.

use vstd::prelude::*;

use crate::index::{SessionEntry, VaultIndex};
use crate::keyed::{Keyed, get_value, lemma_as_map};
use crate::strings::{seq_lt, str_eq, str_lt, trim, unicode_trim};
use crate::tasks::TaskItem;

verus! {

/// The signed whole seconds from `start` to `end`, both RFC 3339 instants, as
/// `chrono` computes them; `None` when either fails to parse.
pub uninterp spec fn rfc3339_span(start: Seq<char>, end: Seq<char>) -> Option<i64>;

/// Parses both instants with `chrono::DateTime::parse_from_rfc3339` and takes
/// `(end - start).num_seconds()`. Claimed: the result depends on the two
/// strings alone (named `rfc3339_span`).
#[verifier::external_body]
fn rfc3339_span_seconds(start: &str, end: &str) -> (r: Option<i64>)
    ensures
        r == rfc3339_span(start@, end@),
{
    match (chrono::DateTime::parse_from_rfc3339(start), chrono::DateTime::parse_from_rfc3339(end)) {
        (Ok(s), Ok(e)) => Some((e - s).num_seconds()),
        _ => None,
    }
}

pub open spec fn is_digit(c: char) -> bool {
    '0' <= c && c <= '9'
}

pub open spec fn digit_value(c: char) -> int {
    c as int - 48
}

/// The year a timestamp starts with: its first four characters parsed as an
/// unsigned number (four digits, or `+` and three digits).
pub open spec fn year_of_spec(s: Seq<char>) -> Option<u32> {
    if s.len() < 4 {
        None
    } else if is_digit(s[0]) && is_digit(s[1]) && is_digit(s[2]) && is_digit(s[3]) {
        Some((digit_value(s[0]) * 1000 + digit_value(s[1]) * 100 + digit_value(s[2]) * 10 + digit_value(s[3])) as u32)
    } else if s[0] == '+' && is_digit(s[1]) && is_digit(s[2]) && is_digit(s[3]) {
        Some((digit_value(s[1]) * 100 + digit_value(s[2]) * 10 + digit_value(s[3])) as u32)
    } else {
        None
    }
}

fn digit_of(c: char) -> (r: Option<u32>)
    ensures
        r is Some <==> is_digit(c),
        r matches Some(d) ==> d == digit_value(c),
{
    if '0' <= c && c <= '9' {
        Some((c as u32) - 48)
    } else {
        None
    }
}

/// The year a timestamp starts with.
pub fn year_of(timestamp: &str) -> (r: Option<u32>)
    ensures
        r == year_of_spec(timestamp@),
{
    if timestamp.unicode_len() < 4 {
        return None;
    }
    let c0 = timestamp.get_char(0);
    let d1 = digit_of(timestamp.get_char(1));
    let d2 = digit_of(timestamp.get_char(2));
    let d3 = digit_of(timestamp.get_char(3));
    match (d1, d2, d3) {
        (Some(a), Some(b), Some(c)) => match digit_of(c0) {
            Some(d0) => Some(d0 * 1000 + a * 100 + b * 10 + c),
            None => if c0 == '+' {
                Some(a * 100 + b * 10 + c)
            } else {
                None
            },
        },
        _ => None,
    }
}

/// Seconds from start to end of a session that has both, never negative.
pub open spec fn duration_of(started_at: Option<Seq<char>>, ended_at: Option<Seq<char>>) -> u64 {
    match (started_at, ended_at) {
        (Some(s), Some(e)) => match rfc3339_span(s, e) {
            Some(d) => if d > 0 { d as u64 } else { 0 },
            None => 0,
        },
        _ => 0,
    }
}

/// Seconds from a session's start to its end, when it has both.
pub fn duration_seconds(started_at: &Option<String>, ended_at: &Option<String>) -> (r: u64)
    ensures
        r == duration_of(started_at.deep_view(), ended_at.deep_view()),
{
    match (started_at, ended_at) {
        (Some(s), Some(e)) => match rfc3339_span_seconds(s.as_str(), e.as_str()) {
            Some(d) => if d > 0 {
                d as u64
            } else {
                0
            },
            None => 0,
        },
        _ => 0,
    }
}

/// What the statistics read of one session.
pub struct SessionRow {
    pub id: String,
    pub year: Option<u32>,
    pub has_note: bool,
    pub word_count: u64,
    pub enhanced_docs: u64,
    pub duration_seconds: u64,
    pub created_at: String,
}

pub struct SessionRowView {
    pub id: Seq<char>,
    pub year: Option<u32>,
    pub has_note: bool,
    pub word_count: u64,
    pub enhanced_docs: u64,
    pub duration_seconds: u64,
    pub created_at: Seq<char>,
}

impl DeepView for SessionRow {
    type V = SessionRowView;

    open spec fn deep_view(&self) -> SessionRowView {
        SessionRowView {
            id: self.id@,
            year: self.year,
            has_note: self.has_note,
            word_count: self.word_count,
            enhanced_docs: self.enhanced_docs,
            duration_seconds: self.duration_seconds,
            created_at: self.created_at@,
        }
    }
}

/// A session's row: its year (from the start, else the creation time), whether
/// its note has text, its words and docs by the meta's id, and its duration.
pub open spec fn row_of(index: VaultIndex, e: Keyed<SessionEntry>) -> SessionRowView {
    let meta = e.value.meta;
    SessionRowView {
        id: meta.id@,
        year: year_of_spec(match meta.started_at {
            Some(s) => s@,
            None => meta.created_at@,
        }),
        has_note: match e.value.note_markdown {
            Some(n) => unicode_trim(n@).len() > 0,
            None => false,
        },
        word_count: if index.transcript_map().dom().contains(meta.id@) {
            index.transcript_map()[meta.id@].word_count
        } else {
            0
        },
        enhanced_docs: if index.doc_map().dom().contains(meta.id@) {
            index.doc_map()[meta.id@]@.len() as u64
        } else {
            0
        },
        duration_seconds: duration_of(meta.started_at.deep_view(), meta.ended_at.deep_view()),
        created_at: meta.created_at@,
    }
}

/// One row per indexed session, in the index's order.
pub fn session_rows(index: &VaultIndex) -> (rows: Vec<SessionRow>)
    requires
        index.wf(),
    ensures
        rows.deep_view() == index.sessions@.map_values(|e: Keyed<SessionEntry>| row_of(*index, e)),
{
    let ghost all = index.sessions@;
    let mut rows: Vec<SessionRow> = Vec::new();
    let mut i: usize = 0;
    while i < index.sessions.len()
        invariant
            i <= index.sessions.len(),
            index.wf(),
            all == index.sessions@,
            rows.deep_view() == all.subrange(0, i as int).map_values(|e: Keyed<SessionEntry>| row_of(*index, e)),
        decreases index.sessions.len() - i,
    {
        let entry = &index.sessions[i].value;
        let meta = &entry.meta;
        let year = match &meta.started_at {
            Some(s) => year_of(s.as_str()),
            None => year_of(meta.created_at.as_str()),
        };
        let has_note = match &entry.note_markdown {
            Some(n) => trim(n.as_str()).unicode_len() > 0,
            None => false,
        };
        let word_count = match get_value(&index.transcripts, meta.id.as_str()) {
            Some(summary) => summary.word_count,
            None => 0,
        };
        let enhanced_docs = match get_value(&index.docs, meta.id.as_str()) {
            Some(docs) => docs.len() as u64,
            None => 0,
        };
        let row = SessionRow {
            id: meta.id.clone(),
            year,
            has_note,
            word_count,
            enhanced_docs,
            duration_seconds: duration_seconds(&meta.started_at, &meta.ended_at),
            created_at: meta.created_at.clone(),
        };
        let ghost before = rows.deep_view();
        rows.push(row);
        proof {
            assert(all[i as int].value == *entry);
            assert(rows.deep_view() =~= before.push(row_of(*index, all[i as int])));
            assert(rows.deep_view() =~= all.subrange(0, i + 1).map_values(|e: Keyed<SessionEntry>| row_of(*index, e)));
        }
        i = i + 1;
    }
    proof {
        assert(all.subrange(0, all.len() as int) =~= all);
    }
    rows
}


/// A year's share of the vault.
#[derive(Debug)]
pub struct VaultYearStats {
    pub year: u32,
    pub sessions: u64,
    pub recordings: u64,
    pub transcript_words: u64,
    pub enhanced_docs: u64,
    pub duration_seconds: u64,
}

/// The vault's statistics.
#[derive(Debug)]
pub struct VaultStats {
    pub sessions: u64,
    /// Sessions with a non-empty note.
    pub notes: u64,
    pub recordings: u64,
    pub recording_bytes: u64,
    pub transcript_words: u64,
    pub enhanced_docs: u64,
    pub tasks_total: u64,
    pub tasks_done: u64,
    pub tags: u64,
    pub people: u64,
    /// Summed `ended_at - started_at` across sessions that have both.
    pub duration_seconds: u64,
    pub first_session_at: Option<String>,
    /// Ascending by year.
    pub years: Vec<VaultYearStats>,
}

/// Rows with their recording sizes (`None`: no recording).
pub open spec fn sum_words(rows: Seq<SessionRowView>) -> int
    decreases rows.len(),
{
    if rows.len() == 0 { 0 } else { sum_words(rows.drop_last()) + rows.last().word_count }
}

pub open spec fn sum_docs(rows: Seq<SessionRowView>) -> int
    decreases rows.len(),
{
    if rows.len() == 0 { 0 } else { sum_docs(rows.drop_last()) + rows.last().enhanced_docs }
}

pub open spec fn sum_duration(rows: Seq<SessionRowView>) -> int
    decreases rows.len(),
{
    if rows.len() == 0 { 0 } else { sum_duration(rows.drop_last()) + rows.last().duration_seconds }
}

pub open spec fn count_notes(rows: Seq<SessionRowView>) -> int
    decreases rows.len(),
{
    if rows.len() == 0 { 0 } else { count_notes(rows.drop_last()) + if rows.last().has_note { 1int } else { 0 } }
}

pub open spec fn count_recordings(recs: Seq<Option<u64>>) -> int
    decreases recs.len(),
{
    if recs.len() == 0 { 0 } else { count_recordings(recs.drop_last()) + if recs.last() is Some { 1int } else { 0 } }
}

pub open spec fn sum_recording_bytes(recs: Seq<Option<u64>>) -> int
    decreases recs.len(),
{
    if recs.len() == 0 {
        0
    } else {
        sum_recording_bytes(recs.drop_last()) + match recs.last() {
            Some(b) => b as int,
            None => 0,
        }
    }
}

/// The earliest creation time (by character order), if any session.
pub open spec fn earliest(rows: Seq<SessionRowView>) -> Option<Seq<char>>
    decreases rows.len(),
{
    if rows.len() == 0 {
        None
    } else {
        match earliest(rows.drop_last()) {
            None => Some(rows.last().created_at),
            Some(m) => if seq_lt(rows.last().created_at, m) { Some(rows.last().created_at) } else { Some(m) },
        }
    }
}

/// Tasks over every tasks file, and how many are done.
pub open spec fn task_total(files: Seq<Keyed<Vec<TaskItem>>>) -> int
    decreases files.len(),
{
    if files.len() == 0 { 0 } else { task_total(files.drop_last()) + files.last().value@.len() }
}

pub open spec fn done_in(tasks: Seq<TaskItem>) -> int
    decreases tasks.len(),
{
    if tasks.len() == 0 { 0 } else { done_in(tasks.drop_last()) + if tasks.last().status@ == "done"@ { 1int } else { 0 } }
}

pub open spec fn task_done_total(files: Seq<Keyed<Vec<TaskItem>>>) -> int
    decreases files.len(),
{
    if files.len() == 0 { 0 } else { task_done_total(files.drop_last()) + done_in(files.last().value@) }
}

/// A year's aggregate over the rows dated in it.
pub struct YearView {
    pub year: u32,
    pub sessions: int,
    pub recordings: int,
    pub transcript_words: int,
    pub enhanced_docs: int,
    pub duration_seconds: int,
}

pub open spec fn year_agg(rows: Seq<SessionRowView>, recs: Seq<Option<u64>>, y: u32) -> YearView
    decreases rows.len(),
{
    if rows.len() == 0 || recs.len() != rows.len() {
        YearView { year: y, sessions: 0, recordings: 0, transcript_words: 0, enhanced_docs: 0, duration_seconds: 0 }
    } else {
        let p = year_agg(rows.drop_last(), recs.drop_last(), y);
        let r = rows.last();
        if r.year == Some(y) {
            YearView {
                year: y,
                sessions: p.sessions + 1,
                recordings: p.recordings + if recs.last() is Some { 1int } else { 0 },
                transcript_words: p.transcript_words + r.word_count,
                enhanced_docs: p.enhanced_docs + r.enhanced_docs,
                duration_seconds: p.duration_seconds + r.duration_seconds,
            }
        } else {
            p
        }
    }
}

pub open spec fn year_view(y: VaultYearStats) -> YearView {
    YearView {
        year: y.year,
        sessions: y.sessions as int,
        recordings: y.recordings as int,
        transcript_words: y.transcript_words as int,
        enhanced_docs: y.enhanced_docs as int,
        duration_seconds: y.duration_seconds as int,
    }
}

/// The per-year list: one entry per year some row is dated in, ascending,
/// each with that year's aggregate.
pub open spec fn years_match(years: Seq<VaultYearStats>, rows: Seq<SessionRowView>, recs: Seq<Option<u64>>) -> bool {
    &&& forall|i: int, j: int| 0 <= i < j < years.len() ==> years[i].year < years[j].year
    &&& forall|i: int| 0 <= i < years.len() ==> #[trigger] year_view(years[i]) == year_agg(rows, recs, years[i].year)
    &&& forall|y: u32| #[trigger] year_listed(years, y) <==> row_dated(rows, y)
}

/// Some entry of the list is for year `y`.
pub open spec fn year_listed(years: Seq<VaultYearStats>, y: u32) -> bool {
    exists|i: int| 0 <= i < years.len() && #[trigger] years[i].year == y
}

/// Some row is dated in year `y`.
pub open spec fn row_dated(rows: Seq<SessionRowView>, y: u32) -> bool {
    exists|k: int| 0 <= k < rows.len() && #[trigger] rows[k].year == Some(y)
}

proof fn lemma_year_agg_bounded(rows: Seq<SessionRowView>, recs: Seq<Option<u64>>, y: u32)
    requires
        rows.len() == recs.len(),
    ensures
        0 <= year_agg(rows, recs, y).sessions <= rows.len(),
        0 <= year_agg(rows, recs, y).recordings <= rows.len(),
        0 <= year_agg(rows, recs, y).transcript_words <= sum_words(rows),
        0 <= year_agg(rows, recs, y).enhanced_docs <= sum_docs(rows),
        0 <= year_agg(rows, recs, y).duration_seconds <= sum_duration(rows),
    decreases rows.len(),
{
    if rows.len() > 0 {
        lemma_year_agg_bounded(rows.drop_last(), recs.drop_last(), y);
    }
}


proof fn lemma_prefix_sums(rows: Seq<SessionRowView>, recs: Seq<Option<u64>>, k: int)
    requires
        0 <= k <= rows.len(),
        0 <= k <= recs.len(),
    ensures
        0 <= sum_words(rows.subrange(0, k)) <= sum_words(rows),
        0 <= sum_docs(rows.subrange(0, k)) <= sum_docs(rows),
        0 <= sum_duration(rows.subrange(0, k)) <= sum_duration(rows),
        0 <= count_notes(rows.subrange(0, k)) <= k,
        0 <= count_recordings(recs.subrange(0, k)) <= k,
        0 <= sum_recording_bytes(recs.subrange(0, k)) <= sum_recording_bytes(recs),
    decreases rows.len() + recs.len(),
{
    if rows.len() > k {
        lemma_prefix_sums(rows.drop_last(), recs, k);
        assert(rows.drop_last().subrange(0, k) =~= rows.subrange(0, k));
    } else if recs.len() > k {
        lemma_prefix_sums(rows, recs.drop_last(), k);
        assert(recs.drop_last().subrange(0, k) =~= recs.subrange(0, k));
    } else {
        assert(rows.subrange(0, k) =~= rows);
        assert(recs.subrange(0, k) =~= recs);
        if k > 0 {
            lemma_prefix_sums(rows.drop_last(), recs.drop_last(), k - 1);
            assert(rows.drop_last().subrange(0, k - 1) =~= rows.drop_last());
            assert(recs.drop_last().subrange(0, k - 1) =~= recs.drop_last());
        }
    }
}

/// The per-year breakdown of the rows, ascending by year.
fn year_breakdown(rows: &Vec<SessionRow>, recs: &Vec<Option<u64>>) -> (years: Vec<VaultYearStats>)
    requires
        rows@.len() == recs@.len(),
        sum_words(rows.deep_view()) <= u64::MAX,
        sum_docs(rows.deep_view()) <= u64::MAX,
        sum_duration(rows.deep_view()) <= u64::MAX,
    ensures
        years_match(years@, rows.deep_view(), recs@),
{
    let ghost rv = rows.deep_view();
    let mut years: Vec<VaultYearStats> = Vec::new();
    let mut i: usize = 0;
    while i < rows.len()
        invariant
            i <= rows.len(),
            rows@.len() == recs@.len(),
            rv == rows.deep_view(),
            sum_words(rv) <= u64::MAX,
            sum_docs(rv) <= u64::MAX,
            sum_duration(rv) <= u64::MAX,
            years_match(years@, rv.subrange(0, i as int), recs@.subrange(0, i as int)),
        decreases rows.len() - i,
    {
        let ghost pr = rv.subrange(0, i as int);
        let ghost pc = recs@.subrange(0, i as int);
        let ghost nr = rv.subrange(0, i + 1);
        let ghost nc = recs@.subrange(0, i + 1);
        proof {
            assert(nr.drop_last() =~= pr);
            assert(nc.drop_last() =~= pc);
            assert(nr.last() == rv[i as int]);
            assert(rv[i as int] == rows@[i as int].deep_view());
            lemma_prefix_sums(rv, recs@, i + 1);
        }
        let row = &rows[i];
        let recorded = recs[i].is_some();
        match row.year {
            None => {
                proof {
                    assert forall|j: int| 0 <= j < years@.len() implies #[trigger] year_view(years@[j]) == year_agg(nr, nc, years@[j].year) by {}
                    assert forall|y: u32| #[trigger] year_listed(years@, y) <==> row_dated(nr, y) by {
                        if row_dated(nr, y) {
                            let k = choose|k: int| 0 <= k < nr.len() && #[trigger] nr[k].year == Some(y);
                            assert(pr[k] == nr[k]);
                            assert(row_dated(pr, y));
                        }
                        if row_dated(pr, y) {
                            let k = choose|k: int| 0 <= k < pr.len() && #[trigger] pr[k].year == Some(y);
                            assert(pr[k] == nr[k]);
                        }
                    }
                }
            },
            Some(y) => {
                let mut p: usize = 0;
                while p < years.len() && years[p].year < y
                    invariant
                        p <= years@.len(),
                        forall|j: int| 0 <= j < p ==> #[trigger] years@[j].year < y,
                    decreases years@.len() - p,
                {
                    p = p + 1;
                }
                let ghost before = years@;
                proof {
                    lemma_year_agg_bounded(nr, nc, y);
                    lemma_year_agg_bounded(pr, pc, y);
                }
                if p < years.len() && years[p].year == y {
                    let old_entry = &years[p];
                    proof {
                        assert(year_view(before[p as int]) == year_agg(pr, pc, y));
                    }
                    let updated = VaultYearStats {
                        year: y,
                        sessions: old_entry.sessions + 1,
                        recordings: old_entry.recordings + if recorded { 1 } else { 0 },
                        transcript_words: old_entry.transcript_words + row.word_count,
                        enhanced_docs: old_entry.enhanced_docs + row.enhanced_docs,
                        duration_seconds: old_entry.duration_seconds + row.duration_seconds,
                    };
                    years.set(p, updated);
                    proof {
                        assert forall|j: int| 0 <= j < years@.len() implies #[trigger] year_view(years@[j]) == year_agg(nr, nc, years@[j].year) by {
                            if j != p {
                                assert(years@[j] == before[j]);
                            }
                        }
                        assert forall|y2: u32| #[trigger] year_listed(years@, y2) <==> row_dated(nr, y2) by {
                            if row_dated(nr, y2) {
                                let k = choose|k: int| 0 <= k < nr.len() && #[trigger] nr[k].year == Some(y2);
                                if k < pr.len() {
                                    assert(pr[k] == nr[k]);
                                    assert(row_dated(pr, y2));
                                    assert(year_listed(before, y2));
                                    let t = choose|t: int| 0 <= t < before.len() && #[trigger] before[t].year == y2;
                                    assert(years@[t].year == y2);
                                } else {
                                    assert(years@[p as int].year == y2);
                                }
                            }
                            if year_listed(years@, y2) {
                                let t = choose|t: int| 0 <= t < years@.len() && #[trigger] years@[t].year == y2;
                                if t == p {
                                    assert(nr[i as int].year == Some(y2));
                                } else {
                                    assert(before[t].year == y2);
                                    assert(year_listed(before, y2));
                                    let k = choose|k: int| 0 <= k < pr.len() && #[trigger] pr[k].year == Some(y2);
                                    assert(nr[k] == pr[k]);
                                }
                            }
                        }
                    }
                } else {
                    let fresh = VaultYearStats {
                        year: y,
                        sessions: 1,
                        recordings: if recorded { 1 } else { 0 },
                        transcript_words: row.word_count,
                        enhanced_docs: row.enhanced_docs,
                        duration_seconds: row.duration_seconds,
                    };
                    proof {
                        if row_dated(pr, y) {
                            assert(year_listed(before, y));
                            let t = choose|t: int| 0 <= t < before.len() && #[trigger] before[t].year == y;
                            if t < p {
                                assert(before[t].year < y);
                            } else if t > p {
                                assert(before[p as int].year < before[t].year);
                            }
                        }
                        assert(!row_dated(pr, y) ==> year_agg(pr, pc, y).sessions == 0) by {
                            lemma_year_agg_absent(pr, pc, y);
                        }
                    }
                    years.insert(p, fresh);
                    proof {
                        lemma_year_agg_absent(pr, pc, y);
                        assert forall|j: int| 0 <= j < years@.len() implies #[trigger] year_view(years@[j]) == year_agg(nr, nc, years@[j].year) by {
                            if j < p {
                                assert(years@[j] == before[j]);
                            } else if j > p {
                                assert(years@[j] == before[j - 1]);
                            }
                        }
                        assert forall|a: int, b: int| 0 <= a < b < years@.len() implies years@[a].year < years@[b].year by {
                            if a < p && b < p {
                                assert(years@[a] == before[a] && years@[b] == before[b]);
                            } else if a < p && b == p {
                                assert(years@[a] == before[a]);
                            } else if a < p {
                                assert(years@[a] == before[a] && years@[b] == before[b - 1]);
                            } else if a == p {
                                assert(years@[b] == before[b - 1]);
                            } else {
                                assert(years@[a] == before[a - 1] && years@[b] == before[b - 1]);
                            }
                        }
                        assert forall|y2: u32| #[trigger] year_listed(years@, y2) <==> row_dated(nr, y2) by {
                            if row_dated(nr, y2) {
                                let k = choose|k: int| 0 <= k < nr.len() && #[trigger] nr[k].year == Some(y2);
                                if k < pr.len() {
                                    assert(pr[k] == nr[k]);
                                    assert(row_dated(pr, y2));
                                    assert(year_listed(before, y2));
                                    let t = choose|t: int| 0 <= t < before.len() && #[trigger] before[t].year == y2;
                                    if t < p {
                                        assert(years@[t].year == y2);
                                    } else {
                                        assert(years@[t + 1].year == y2);
                                    }
                                } else {
                                    assert(years@[p as int].year == y2);
                                }
                            }
                            if year_listed(years@, y2) {
                                let t = choose|t: int| 0 <= t < years@.len() && #[trigger] years@[t].year == y2;
                                if t == p {
                                    assert(nr[i as int].year == Some(y2));
                                } else {
                                    let t0 = if t < p { t } else { t - 1 };
                                    assert(before[t0].year == y2);
                                    assert(year_listed(before, y2));
                                    let k = choose|k: int| 0 <= k < pr.len() && #[trigger] pr[k].year == Some(y2);
                                    assert(nr[k] == pr[k]);
                                }
                            }
                        }
                    }
                }
            },
        }
        i = i + 1;
    }
    proof {
        assert(rv.subrange(0, rows@.len() as int) =~= rv);
        assert(recs@.subrange(0, rows@.len() as int) =~= recs@);
    }
    years
}

proof fn lemma_year_agg_absent(rows: Seq<SessionRowView>, recs: Seq<Option<u64>>, y: u32)
    requires
        rows.len() == recs.len(),
        !row_dated(rows, y),
    ensures
        year_agg(rows, recs, y) == (YearView { year: y, sessions: 0, recordings: 0, transcript_words: 0, enhanced_docs: 0, duration_seconds: 0 }),
    decreases rows.len(),
{
    if rows.len() > 0 {
        let p = rows.drop_last();
        assert(!row_dated(p, y)) by {
            if row_dated(p, y) {
                let k = choose|k: int| 0 <= k < p.len() && #[trigger] p[k].year == Some(y);
                assert(rows[k] == p[k]);
            }
        }
        lemma_year_agg_absent(p, recs.drop_last(), y);
        assert(rows[rows.len() - 1].year != Some(y));
    }
}


/// The sums the statistics keep in `u64` all fit.
pub open spec fn stats_fit(index: VaultIndex, rows: Seq<SessionRowView>, recs: Seq<Option<u64>>) -> bool {
    &&& sum_words(rows) <= u64::MAX
    &&& sum_docs(rows) <= u64::MAX
    &&& sum_duration(rows) <= u64::MAX
    &&& sum_recording_bytes(recs) <= u64::MAX
    &&& task_total(index.tasks@) <= u64::MAX
}

proof fn lemma_task_sums(files: Seq<Keyed<Vec<TaskItem>>>, k: int)
    requires
        0 <= k <= files.len(),
    ensures
        0 <= task_total(files.subrange(0, k)) <= task_total(files),
        0 <= task_done_total(files.subrange(0, k)) <= task_total(files.subrange(0, k)),
    decreases files.len(),
{
    if files.len() > k {
        lemma_task_sums(files.drop_last(), k);
        assert(files.drop_last().subrange(0, k) =~= files.subrange(0, k));
    } else {
        assert(files.subrange(0, k) =~= files);
        if k > 0 {
            lemma_task_sums(files.drop_last(), k - 1);
            assert(files.drop_last().subrange(0, k - 1) =~= files.drop_last());
            lemma_done_le(files.last().value@);
        }
    }
}

proof fn lemma_done_le(tasks: Seq<TaskItem>)
    ensures
        0 <= done_in(tasks) <= tasks.len(),
    decreases tasks.len(),
{
    if tasks.len() > 0 {
        lemma_done_le(tasks.drop_last());
    }
}

/// Whether the statistics' sums fit in `u64` (they overflow only on absurd
/// vaults).
pub fn stats_fit_exec(index: &VaultIndex, rows: &Vec<SessionRow>, recs: &Vec<Option<u64>>) -> (r: bool)
    requires
        rows@.len() == recs@.len(),
    ensures
        r == stats_fit(*index, rows.deep_view(), recs@),
{
    let ghost rv = rows.deep_view();
    let mut words: u64 = 0;
    let mut docs: u64 = 0;
    let mut dur: u64 = 0;
    let mut bytes: u64 = 0;
    let mut fits = true;
    let mut i: usize = 0;
    while i < rows.len()
        invariant
            i <= rows.len(),
            rows@.len() == recs@.len(),
            rv == rows.deep_view(),
            fits ==> words == sum_words(rv.subrange(0, i as int)) && docs == sum_docs(rv.subrange(0, i as int))
                && dur == sum_duration(rv.subrange(0, i as int)) && bytes == sum_recording_bytes(recs@.subrange(0, i as int)),
            !fits ==> !stats_fit(*index, rv, recs@),
        decreases rows.len() - i,
    {
        proof {
            assert(rv.subrange(0, i + 1).drop_last() =~= rv.subrange(0, i as int));
            assert(recs@.subrange(0, i + 1).drop_last() =~= recs@.subrange(0, i as int));
            assert(rv[i as int] == rows@[i as int].deep_view());
            lemma_prefix_sums(rv, recs@, i + 1);
        }
        if fits {
            let b = match recs[i] {
                Some(b) => b,
                None => 0,
            };
            match (words.checked_add(rows[i].word_count), docs.checked_add(rows[i].enhanced_docs),
                dur.checked_add(rows[i].duration_seconds), bytes.checked_add(b)) {
                (Some(w), Some(d), Some(t), Some(x)) => {
                    words = w;
                    docs = d;
                    dur = t;
                    bytes = x;
                },
                _ => {
                    fits = false;
                },
            }
        }
        i = i + 1;
    }
    proof {
        assert(rv.subrange(0, rows@.len() as int) =~= rv);
        assert(recs@.subrange(0, rows@.len() as int) =~= recs@);
    }
    if !fits {
        return false;
    }
    let ghost files = index.tasks@;
    let mut tasks: u64 = 0;
    let mut k: usize = 0;
    while k < index.tasks.len()
        invariant
            k <= index.tasks.len(),
            files == index.tasks@,
            tasks == task_total(files.subrange(0, k as int)),
        decreases index.tasks.len() - k,
    {
        proof {
            assert(files.subrange(0, k + 1).drop_last() =~= files.subrange(0, k as int));
            lemma_task_sums(files, k + 1);
        }
        match tasks.checked_add(index.tasks[k].value.len() as u64) {
            Some(t) => {
                tasks = t;
            },
            None => {
                proof {
                    lemma_task_sums(files, k + 1);
                }
                return false;
            },
        }
        k = k + 1;
    }
    proof {
        assert(files.subrange(0, files.len() as int) =~= files);
    }
    true
}

/// The vault's statistics from the index, its session rows (one per indexed
/// session, from `session_rows`) and each row's recording size (`None`: the
/// session has no recording).
pub fn vault_stats(index: &VaultIndex, rows: &Vec<SessionRow>, recs: &Vec<Option<u64>>) -> (r: VaultStats)
    requires
        index.wf(),
        rows@.len() == recs@.len(),
        stats_fit(*index, rows.deep_view(), recs@),
    ensures
        r.sessions == rows@.len(),
        r.notes == count_notes(rows.deep_view()),
        r.recordings == count_recordings(recs@),
        r.recording_bytes == sum_recording_bytes(recs@),
        r.transcript_words == sum_words(rows.deep_view()),
        r.enhanced_docs == sum_docs(rows.deep_view()),
        r.tasks_total == task_total(index.tasks@),
        r.tasks_done == task_done_total(index.tasks@),
        r.tags == index.tag_map().dom().len(),
        r.people == index.person_map().dom().len(),
        r.duration_seconds == sum_duration(rows.deep_view()),
        r.first_session_at.deep_view() == earliest(rows.deep_view()),
        years_match(r.years@, rows.deep_view(), recs@),
{
    let ghost rv = rows.deep_view();
    let mut notes: u64 = 0;
    let mut words: u64 = 0;
    let mut docs: u64 = 0;
    let mut dur: u64 = 0;
    let mut recordings: u64 = 0;
    let mut bytes: u64 = 0;
    let mut first: Option<String> = None;
    let mut i: usize = 0;
    while i < rows.len()
        invariant
            i <= rows.len(),
            rows@.len() == recs@.len(),
            rv == rows.deep_view(),
            stats_fit(*index, rv, recs@),
            notes == count_notes(rv.subrange(0, i as int)),
            words == sum_words(rv.subrange(0, i as int)),
            docs == sum_docs(rv.subrange(0, i as int)),
            dur == sum_duration(rv.subrange(0, i as int)),
            recordings == count_recordings(recs@.subrange(0, i as int)),
            bytes == sum_recording_bytes(recs@.subrange(0, i as int)),
            first.deep_view() == earliest(rv.subrange(0, i as int)),
        decreases rows.len() - i,
    {
        proof {
            assert(rv.subrange(0, i + 1).drop_last() =~= rv.subrange(0, i as int));
            assert(recs@.subrange(0, i + 1).drop_last() =~= recs@.subrange(0, i as int));
            assert(rv[i as int] == rows@[i as int].deep_view());
            lemma_prefix_sums(rv, recs@, i + 1);
        }
        let row = &rows[i];
        if row.has_note {
            notes = notes + 1;
        }
        words = words + row.word_count;
        docs = docs + row.enhanced_docs;
        dur = dur + row.duration_seconds;
        match recs[i] {
            Some(b) => {
                recordings = recordings + 1;
                bytes = bytes + b;
            },
            None => {},
        }
        first = match first {
            None => Some(row.created_at.clone()),
            Some(m) => if str_lt(row.created_at.as_str(), m.as_str()) {
                Some(row.created_at.clone())
            } else {
                Some(m)
            },
        };
        i = i + 1;
    }
    proof {
        assert(rv.subrange(0, rows@.len() as int) =~= rv);
        assert(recs@.subrange(0, rows@.len() as int) =~= recs@);
    }
    let ghost files = index.tasks@;
    let mut tasks_total: u64 = 0;
    let mut tasks_done: u64 = 0;
    let mut k: usize = 0;
    while k < index.tasks.len()
        invariant
            k <= index.tasks.len(),
            files == index.tasks@,
            task_total(files) <= u64::MAX,
            tasks_total == task_total(files.subrange(0, k as int)),
            tasks_done == task_done_total(files.subrange(0, k as int)),
        decreases index.tasks.len() - k,
    {
        proof {
            assert(files.subrange(0, k + 1).drop_last() =~= files.subrange(0, k as int));
            lemma_task_sums(files, k + 1);
        }
        let list = &index.tasks[k].value;
        let mut done: u64 = 0;
        let mut t: usize = 0;
        while t < list.len()
            invariant
                t <= list.len(),
                done == done_in(list@.subrange(0, t as int)),
                done <= t,
                list@.len() <= u64::MAX,
            decreases list.len() - t,
        {
            proof {
                assert(list@.subrange(0, t + 1).drop_last() =~= list@.subrange(0, t as int));
                reveal_strlit("done");
            }
            if str_eq(list[t].status.as_str(), "done") {
                done = done + 1;
            }
            t = t + 1;
        }
        proof {
            assert(list@.subrange(0, list@.len() as int) =~= list@);
            assert(files[k as int].value == *list);
        }
        tasks_total = tasks_total + list.len() as u64;
        tasks_done = tasks_done + done;
        k = k + 1;
    }
    proof {
        assert(files.subrange(0, files.len() as int) =~= files);
        lemma_as_map(index.tags@);
        lemma_as_map(index.people@);
    }
    VaultStats {
        sessions: rows.len() as u64,
        notes,
        recordings,
        recording_bytes: bytes,
        transcript_words: words,
        enhanced_docs: docs,
        tasks_total,
        tasks_done,
        tags: index.tags.len() as u64,
        people: index.people.len() as u64,
        duration_seconds: dur,
        first_session_at: first,
        years: year_breakdown(rows, recs),
    }
}


/// The done count of a task list is the number of its tasks whose status is
/// exactly `done`.
pub proof fn lemma_done_counts_done_tasks(tasks: Seq<TaskItem>)
    ensures
        done_in(tasks) == tasks.filter(|t: TaskItem| t.status@ == "done"@).len(),
    decreases tasks.len(),
{
    reveal(Seq::filter);
    if tasks.len() > 0 {
        lemma_done_counts_done_tasks(tasks.drop_last());
    }
}

/// The note count is the number of rows with a note.
pub proof fn lemma_notes_count_rows_with_notes(rows: Seq<SessionRowView>)
    ensures
        count_notes(rows) == rows.filter(|r: SessionRowView| r.has_note).len(),
    decreases rows.len(),
{
    reveal(Seq::filter);
    if rows.len() > 0 {
        lemma_notes_count_rows_with_notes(rows.drop_last());
    }
}

/// The recording count is the number of sessions that have a recording.
pub proof fn lemma_recordings_count_present(recs: Seq<Option<u64>>)
    ensures
        count_recordings(recs) == recs.filter(|r: Option<u64>| r is Some).len(),
    decreases recs.len(),
{
    reveal(Seq::filter);
    if recs.len() > 0 {
        lemma_recordings_count_present(recs.drop_last());
    }
}

/// Task totals add up over the tasks files: the totals of two lists of files
/// are the totals of each, and one file counts its tasks, and its tasks whose
/// status is exactly `done`.
pub proof fn lemma_task_totals_add(a: Seq<Keyed<Vec<TaskItem>>>, b: Seq<Keyed<Vec<TaskItem>>>, f: Keyed<Vec<TaskItem>>)
    ensures
        task_total(a + b) == task_total(a) + task_total(b),
        task_done_total(a + b) == task_done_total(a) + task_done_total(b),
        task_total(seq![f]) == f.value@.len(),
        task_done_total(seq![f]) == f.value@.filter(|t: TaskItem| t.status@ == "done"@).len(),
    decreases b.len(),
{
    lemma_done_counts_done_tasks(f.value@);
    assert(seq![f].drop_last() =~= Seq::<Keyed<Vec<TaskItem>>>::empty());
    assert(seq![f].len() == 1 && seq![f].last() == f);
    assert(task_total(seq![f].drop_last()) == 0 && task_done_total(seq![f].drop_last()) == 0);
    if b.len() == 0 {
        assert(a + b =~= a);
    } else {
        lemma_task_totals_add(a, b.drop_last(), f);
        assert((a + b).drop_last() =~= a + b.drop_last());
        assert((a + b).last() == b.last());
    }
}

/// Row sums add up over the rows: words, documents and durations of two
/// lists of rows are those of each, and one row contributes its own values.
pub proof fn lemma_row_sums_add(a: Seq<SessionRowView>, b: Seq<SessionRowView>, r: SessionRowView)
    ensures
        sum_words(a + b) == sum_words(a) + sum_words(b),
        sum_docs(a + b) == sum_docs(a) + sum_docs(b),
        sum_duration(a + b) == sum_duration(a) + sum_duration(b),
        sum_words(seq![r]) == r.word_count,
        sum_docs(seq![r]) == r.enhanced_docs,
        sum_duration(seq![r]) == r.duration_seconds,
    decreases b.len(),
{
    assert(seq![r].drop_last() =~= Seq::<SessionRowView>::empty());
    assert(seq![r].len() == 1 && seq![r].last() == r);
    assert(sum_words(seq![r].drop_last()) == 0 && sum_docs(seq![r].drop_last()) == 0 && sum_duration(seq![r].drop_last()) == 0);
    if b.len() == 0 {
        assert(a + b =~= a);
    } else {
        lemma_row_sums_add(a, b.drop_last(), r);
        assert((a + b).drop_last() =~= a + b.drop_last());
        assert((a + b).last() == b.last());
    }
}

/// Recording bytes add up over the sessions; a session without a recording
/// adds nothing, one with a recording adds its size.
pub proof fn lemma_recording_bytes_add(a: Seq<Option<u64>>, b: Seq<Option<u64>>, x: Option<u64>)
    ensures
        sum_recording_bytes(a + b) == sum_recording_bytes(a) + sum_recording_bytes(b),
        sum_recording_bytes(seq![x]) == match x {
            Some(n) => n as int,
            None => 0,
        },
    decreases b.len(),
{
    assert(seq![x].drop_last() =~= Seq::<Option<u64>>::empty());
    assert(seq![x].len() == 1 && seq![x].last() == x);
    assert(sum_recording_bytes(seq![x].drop_last()) == 0);
    if b.len() == 0 {
        assert(a + b =~= a);
    } else {
        lemma_recording_bytes_add(a, b.drop_last(), x);
        assert((a + b).drop_last() =~= a + b.drop_last());
        assert((a + b).last() == b.last());
    }
}

/// The first session time is the least creation time of the rows: absent
/// exactly when there are no rows, otherwise some row's, and no row's is
/// earlier.
pub proof fn lemma_earliest_is_least(rows: Seq<SessionRowView>)
    ensures
        earliest(rows) is None <==> rows.len() == 0,
        earliest(rows) matches Some(m) ==> (exists|k: int| 0 <= k < rows.len() && rows[k].created_at == m)
            && forall|k: int| 0 <= k < rows.len() ==> !seq_lt(#[trigger] rows[k].created_at, m),
    decreases rows.len(),
{
    if rows.len() > 0 {
        let p = rows.drop_last();
        lemma_earliest_is_least(p);
        let c = rows.last();
        match earliest(p) {
            None => {
                assert(rows[rows.len() - 1] == c);
                assert forall|k: int| 0 <= k < rows.len() implies !seq_lt(#[trigger] rows[k].created_at, c.created_at) by {
                    assert(k == rows.len() - 1);
                    crate::strings::lemma_seq_lt_irreflexive(c.created_at);
                }
            },
            Some(m) => {
                if seq_lt(c.created_at, m) {
                    assert(rows[rows.len() - 1] == c);
                    assert forall|k: int| 0 <= k < rows.len() implies !seq_lt(#[trigger] rows[k].created_at, c.created_at) by {
                        if k < rows.len() - 1 {
                            assert(rows[k] == p[k]);
                            assert(!seq_lt(p[k].created_at, m));
                            if seq_lt(rows[k].created_at, c.created_at) {
                                crate::strings::lemma_seq_lt_transitive(rows[k].created_at, c.created_at, m);
                            }
                        } else {
                            crate::strings::lemma_seq_lt_irreflexive(c.created_at);
                        }
                    }
                } else {
                    let k0 = choose|k: int| 0 <= k < p.len() && p[k].created_at == m;
                    assert(rows[k0] == p[k0]);
                    assert forall|k: int| 0 <= k < rows.len() implies !seq_lt(#[trigger] rows[k].created_at, m) by {
                        if k < rows.len() - 1 {
                            assert(rows[k] == p[k]);
                        }
                    }
                }
            },
        }
    }
}

} // verus!
