//! `_meta.json` content: the session metadata record, partial updates, the
//! tag-suggestion lifecycle and the recording timestamps.

use vstd::prelude::*;
use vstd::string::*;

use crate::order::{SortKey, lemma_seq_le_total, lemma_seq_le_transitive, sort_records};
use crate::record::{DeepCopy, Same, copy_opt, copy_vec, same_opt, same_vec};
use crate::strings::{
    ascii_lower, is_ascii_seq, seq_contains_seq, seq_le, seq_lt, str_contains, str_eq, str_lt, to_lowercase,
    unicode_lowercase,
};

verus! {

#[derive(Debug, Clone, Copy, PartialEq, Eq, Structural)]
pub enum TagSuggestionStatus {
    Pending,
    Complete,
}

impl DeepView for TagSuggestionStatus {
    type V = TagSuggestionStatus;

    open spec fn deep_view(&self) -> TagSuggestionStatus {
        *self
    }
}

impl Same for TagSuggestionStatus {
    fn same(&self, other: &Self) -> (r: bool) {
        *self == *other
    }
}

/// One suggested tag. The confidence is carried as the bit pattern of the
/// suggester's `f32` score; only the caller compares it with a threshold.
#[derive(Debug)]
pub struct TagSuggestionItem {
    pub name: String,
    pub confidence_bits: u32,
}

pub struct TagSuggestionItemView {
    pub name: Seq<char>,
    pub confidence_bits: u32,
}

impl DeepView for TagSuggestionItem {
    type V = TagSuggestionItemView;

    open spec fn deep_view(&self) -> TagSuggestionItemView {
        TagSuggestionItemView { name: self.name@, confidence_bits: self.confidence_bits }
    }
}

impl Same for TagSuggestionItem {
    fn same(&self, other: &Self) -> (r: bool) {
        self.name == other.name && self.confidence_bits == other.confidence_bits
    }
}

impl Clone for TagSuggestionItem {
    fn clone(&self) -> (r: Self)
        ensures
            r == *self,
    {
        TagSuggestionItem { name: self.name.clone(), confidence_bits: self.confidence_bits }
    }
}

#[derive(Debug)]
pub struct TagSuggestionState {
    pub source_hash: String,
    pub algorithm_version: u32,
    pub status: TagSuggestionStatus,
    pub items: Vec<TagSuggestionItem>,
    pub dismissed: Vec<String>,
}

pub struct TagSuggestionStateView {
    pub source_hash: Seq<char>,
    pub algorithm_version: u32,
    pub status: TagSuggestionStatus,
    pub items: Seq<TagSuggestionItemView>,
    pub dismissed: Seq<Seq<char>>,
}

impl DeepView for TagSuggestionState {
    type V = TagSuggestionStateView;

    open spec fn deep_view(&self) -> TagSuggestionStateView {
        TagSuggestionStateView {
            source_hash: self.source_hash@,
            algorithm_version: self.algorithm_version,
            status: self.status,
            items: self.items.deep_view(),
            dismissed: self.dismissed.deep_view(),
        }
    }
}

impl Same for TagSuggestionState {
    fn same(&self, other: &Self) -> (r: bool) {
        self.source_hash == other.source_hash && self.algorithm_version == other.algorithm_version
            && self.status == other.status && same_vec(&self.items, &other.items) && same_vec(
            &self.dismissed,
            &other.dismissed,
        )
    }
}

/// The `_meta.json` record. Fields this library does not interpret travel as
/// JSON text (`extra_json`, `skill_json`); `event_tracking_id` is the
/// `tracking_id` of a retired calendar-event envelope kept in those fields.
#[derive(Debug)]
pub struct SessionMeta {
    pub id: String,
    pub title: String,
    pub started_at: Option<String>,
    pub ended_at: Option<String>,
    pub created_at: String,
    pub tags: Vec<String>,
    pub tag_suggestions: Option<TagSuggestionState>,
    pub tracking_id: Option<String>,
    pub folder: Option<String>,
    pub author: Option<String>,
    pub skill_json: Option<String>,
    pub extra_json: String,
    pub event_tracking_id: Option<String>,
}

pub struct SessionMetaView {
    pub id: Seq<char>,
    pub title: Seq<char>,
    pub started_at: Option<Seq<char>>,
    pub ended_at: Option<Seq<char>>,
    pub created_at: Seq<char>,
    pub tags: Seq<Seq<char>>,
    pub tag_suggestions: Option<TagSuggestionStateView>,
    pub tracking_id: Option<Seq<char>>,
    pub folder: Option<Seq<char>>,
    pub author: Option<Seq<char>>,
    pub skill_json: Option<Seq<char>>,
    pub extra_json: Seq<char>,
    pub event_tracking_id: Option<Seq<char>>,
}

impl DeepView for SessionMeta {
    type V = SessionMetaView;

    open spec fn deep_view(&self) -> SessionMetaView {
        SessionMetaView {
            id: self.id@,
            title: self.title@,
            started_at: self.started_at.deep_view(),
            ended_at: self.ended_at.deep_view(),
            created_at: self.created_at@,
            tags: self.tags.deep_view(),
            tag_suggestions: self.tag_suggestions.deep_view(),
            tracking_id: self.tracking_id.deep_view(),
            folder: self.folder.deep_view(),
            author: self.author.deep_view(),
            skill_json: self.skill_json.deep_view(),
            extra_json: self.extra_json@,
            event_tracking_id: self.event_tracking_id.deep_view(),
        }
    }
}

impl Same for SessionMeta {
    fn same(&self, other: &Self) -> (r: bool) {
        self.id == other.id && self.title == other.title && same_opt(
            &self.started_at,
            &other.started_at,
        ) && same_opt(&self.ended_at, &other.ended_at) && self.created_at == other.created_at
            && same_vec(&self.tags, &other.tags) && same_opt(
            &self.tag_suggestions,
            &other.tag_suggestions,
        ) && same_opt(&self.tracking_id, &other.tracking_id) && same_opt(
            &self.folder,
            &other.folder,
        ) && same_opt(&self.author, &other.author) && same_opt(
            &self.skill_json,
            &other.skill_json,
        ) && self.extra_json == other.extra_json && same_opt(
            &self.event_tracking_id,
            &other.event_tracking_id,
        )
    }
}

/// Tags that mention importing are never handled by tag automation.
pub open spec fn is_automation_candidate(name: Seq<char>) -> bool {
    !seq_contains_seq(unicode_lowercase(name), "import"@)
}

pub fn is_tag_automation_candidate(name: &str) -> (r: bool)
    ensures
        r == is_automation_candidate(name@),
        is_ascii_seq(name@) ==> r == !seq_contains_seq(ascii_lower(name@), "import"@),
{
    let lower = to_lowercase(name);
    !str_contains(lower.as_str(), "import")
}

/// Partial update for `_meta.json`: `None` means "leave as-is".
#[derive(Debug, Default)]
pub struct SessionMetaPatch {
    pub title: Option<String>,
    pub started_at: Option<String>,
    pub ended_at: Option<String>,
    pub created_at: Option<String>,
    pub tags: Option<Vec<String>>,
    pub tracking_id: Option<String>,
    pub folder: Option<String>,
    pub author: Option<String>,
}

pub open spec fn or_keep<T>(patch: Option<T>, current: T) -> T {
    match patch {
        Some(v) => v,
        None => current,
    }
}

pub open spec fn or_keep_opt<T>(patch: Option<T>, current: Option<T>) -> Option<T> {
    match patch {
        Some(v) => Some(v),
        None => current,
    }
}

/// Suggestions whose name is not among `tags`.
pub open spec fn items_not_in(items: Seq<TagSuggestionItemView>, tags: Seq<Seq<char>>) -> Seq<
    TagSuggestionItemView,
> {
    items.filter(|it: TagSuggestionItemView| !tags.contains(it.name))
}

/// The metadata after a patch: every given field replaces the current one; new
/// tags also drop the pending suggestions they now contain.
pub open spec fn patched_meta(m: SessionMetaView, p: SessionMetaPatchView) -> SessionMetaView {
    let tags = or_keep(p.tags, m.tags);
    let suggestions = match (p.tags, m.tag_suggestions) {
        (Some(t), Some(s)) => Some(TagSuggestionStateView { items: items_not_in(s.items, t), ..s }),
        _ => m.tag_suggestions,
    };
    SessionMetaView {
        title: or_keep(p.title, m.title),
        started_at: or_keep_opt(p.started_at, m.started_at),
        ended_at: or_keep_opt(p.ended_at, m.ended_at),
        created_at: or_keep(p.created_at, m.created_at),
        tags,
        tag_suggestions: suggestions,
        tracking_id: or_keep_opt(p.tracking_id, m.tracking_id),
        folder: or_keep_opt(p.folder, m.folder),
        author: or_keep_opt(p.author, m.author),
        ..m
    }
}

pub struct SessionMetaPatchView {
    pub title: Option<Seq<char>>,
    pub started_at: Option<Seq<char>>,
    pub ended_at: Option<Seq<char>>,
    pub created_at: Option<Seq<char>>,
    pub tags: Option<Seq<Seq<char>>>,
    pub tracking_id: Option<Seq<char>>,
    pub folder: Option<Seq<char>>,
    pub author: Option<Seq<char>>,
}

impl DeepView for SessionMetaPatch {
    type V = SessionMetaPatchView;

    open spec fn deep_view(&self) -> SessionMetaPatchView {
        SessionMetaPatchView {
            title: self.title.deep_view(),
            started_at: self.started_at.deep_view(),
            ended_at: self.ended_at.deep_view(),
            created_at: self.created_at.deep_view(),
            tags: self.tags.deep_view(),
            tracking_id: self.tracking_id.deep_view(),
            folder: self.folder.deep_view(),
            author: self.author.deep_view(),
        }
    }
}

/// Whether `name` is one of `names`.
pub fn vec_contains_str(names: &Vec<String>, name: &str) -> (r: bool)
    ensures
        r == names.deep_view().contains(name@),
{
    let mut i: usize = 0;
    while i < names.len()
        invariant
            i <= names.len(),
            forall|j: int| 0 <= j < i ==> names@[j]@ != name@,
        decreases names.len() - i,
    {
        if str_eq(names[i].as_str(), name) {
            assert(names.deep_view()[i as int] == name@);
            return true;
        }
        i = i + 1;
    }
    assert forall|j: int| 0 <= j < names.deep_view().len() implies names.deep_view()[j] != name@ by {
        assert(names.deep_view()[j] == names@[j]@);
    }
    false
}

/// Keeps the suggestions whose name is not among `tags`.
fn retain_items_not_in(items: Vec<TagSuggestionItem>, tags: &Vec<String>) -> (r: Vec<TagSuggestionItem>)
    ensures
        r.deep_view() == items_not_in(items.deep_view(), tags.deep_view()),
{
    let ghost pred = |it: TagSuggestionItemView| !tags.deep_view().contains(it.name);
    let ghost all = items.deep_view();
    let mut rest = items;
    let mut kept: Vec<TagSuggestionItem> = Vec::new();
    while rest.len() > 0
        invariant
            rest.deep_view().len() <= all.len(),
            rest.deep_view() == all.subrange(all.len() - rest.deep_view().len(), all.len() as int),
            kept.deep_view() == all.subrange(0, all.len() - rest.deep_view().len()).filter(pred),
            pred == (|it: TagSuggestionItemView| !tags.deep_view().contains(it.name)),
        decreases rest.len(),
    {
        let ghost done = all.len() - rest.deep_view().len();
        let ghost before = rest.deep_view();
        let ghost before_raw = rest@;
        let x = rest.remove(0);
        proof {
            assert(rest.deep_view() =~= before.drop_first());
            assert(before[0] == before_raw[0].deep_view());
            assert(before[0] == all[done]);
            assert(x.deep_view() == all[done]);
            assert(all.subrange(0, done + 1).drop_last() =~= all.subrange(0, done));
            reveal_with_fuel(Seq::<_>::filter, 1);
        }
        if !vec_contains_str(tags, x.name.as_str()) {
            kept.push(x);
        }
        proof {
            assert(kept.deep_view() =~= all.subrange(0, done + 1).filter(pred));
            assert(rest.deep_view() =~= all.subrange(done + 1, all.len() as int));
        }
    }
    proof {
        assert(all.subrange(0, all.len() as int) =~= all);
    }
    kept
}

/// Applies a partial update to `_meta.json`.
pub fn apply_meta_patch(meta: SessionMeta, patch: SessionMetaPatch) -> (r: SessionMeta)
    ensures
        r.deep_view() == patched_meta(meta.deep_view(), patch.deep_view()),
{
    let ghost m0 = meta.deep_view();
    let ghost p0 = patch.deep_view();
    let SessionMetaPatch { title, started_at, ended_at, created_at, tags, tracking_id, folder, author } = patch;
    let mut meta = meta;
    if let Some(title) = title {
        meta.title = title;
    }
    if let Some(started_at) = started_at {
        meta.started_at = Some(started_at);
    }
    if let Some(ended_at) = ended_at {
        meta.ended_at = Some(ended_at);
    }
    if let Some(created_at) = created_at {
        meta.created_at = created_at;
    }
    if let Some(tags) = tags {
        meta.tags = tags;
        let suggestions = meta.tag_suggestions.take();
        meta.tag_suggestions = match suggestions {
            Some(state) => {
                let TagSuggestionState { source_hash, algorithm_version, status, items, dismissed } = state;
                let items = retain_items_not_in(items, &meta.tags);
                Some(TagSuggestionState { source_hash, algorithm_version, status, items, dismissed })
            },
            None => None,
        };
    }
    if let Some(tracking_id) = tracking_id {
        meta.tracking_id = Some(tracking_id);
    }
    if let Some(folder) = folder {
        meta.folder = Some(folder);
    }
    if let Some(author) = author {
        meta.author = Some(author);
    }
    proof {
        assert(meta.deep_view() =~= patched_meta(m0, p0));
    }
    meta
}


/// Rust's order on strings as a sort key for a list of names.
impl SortKey for String {
    open spec fn spec_le(&self, other: &Self) -> bool {
        seq_le(self@, other@)
    }

    proof fn lemma_le_total(a: &Self, b: &Self) {
        lemma_seq_le_total(a@, b@);
    }

    proof fn lemma_le_transitive(a: &Self, b: &Self, c: &Self) {
        lemma_seq_le_transitive(a@, b@, c@);
    }

    fn le(&self, other: &Self) -> (r: bool) {
        str_eq(self.as_str(), other.as_str()) || str_lt(self.as_str(), other.as_str())
    }
}

/// Names in strictly increasing order (sorted, no repeats).
pub open spec fn strictly_sorted(s: Seq<Seq<char>>) -> bool {
    forall|i: int, j: int| 0 <= i < j < s.len() ==> seq_lt(#[trigger] s[i], #[trigger] s[j])
}

/// Names in non-decreasing order.
pub open spec fn names_sorted(s: Seq<Seq<char>>) -> bool {
    forall|i: int, j: int| 0 <= i < j < s.len() ==> seq_le(#[trigger] s[i], #[trigger] s[j])
}

proof fn lemma_multiset_eq_views(a: Seq<String>, b: Seq<String>)
    requires
        a.to_multiset() == b.to_multiset(),
    ensures
        a.map_values(|x: String| x@).to_set() == b.map_values(|x: String| x@).to_set(),
{
    broadcast use vstd::seq_lib::group_to_multiset_ensures;
    let av = a.map_values(|x: String| x@);
    let bv = b.map_values(|x: String| x@);
    assert forall|v: Seq<char>| av.to_set().contains(v) <==> bv.to_set().contains(v) by {
        if av.contains(v) {
            let i = choose|i: int| 0 <= i < av.len() && av[i] == v;
            assert(a.contains(a[i]));
            assert(a.to_multiset().count(a[i]) > 0);
            assert(b.contains(a[i]));
            let j = choose|j: int| 0 <= j < b.len() && b[j] == a[i];
            assert(bv[j] == v);
        }
        if bv.contains(v) {
            let i = choose|i: int| 0 <= i < bv.len() && bv[i] == v;
            assert(b.contains(b[i]));
            assert(b.to_multiset().count(b[i]) > 0);
            assert(a.contains(b[i]));
            let j = choose|j: int| 0 <= j < a.len() && a[j] == b[i];
            assert(av[j] == v);
        }
    }
    assert(av.to_set() =~= bv.to_set());
}

/// Sorts names in Rust's string order.
pub fn sort_names(v: Vec<String>) -> (r: Vec<String>)
    ensures
        names_sorted(r.deep_view()),
        r@.to_multiset() == v@.to_multiset(),
        r.deep_view().to_set() == v.deep_view().to_set(),
{
    let r = sort_records(v);
    proof {
        lemma_multiset_eq_views(r@, v@);
        assert(r.deep_view() =~= r@.map_values(|x: String| x@));
        assert(v.deep_view() =~= v@.map_values(|x: String| x@));
        assert forall|i: int, j: int| 0 <= i < j < r.deep_view().len() implies seq_le(
            #[trigger] r.deep_view()[i],
            #[trigger] r.deep_view()[j],
        ) by {
            assert(r@[i].spec_le(&r@[j]));
        }
    }
    r
}

/// Sorts names and drops repeats (`sort` then `dedup`).
pub fn sort_dedup_names(v: Vec<String>) -> (r: Vec<String>)
    ensures
        strictly_sorted(r.deep_view()),
        r.deep_view().to_set() == v.deep_view().to_set(),
{
    let sorted = sort_names(v);
    let ghost sv = sorted.deep_view();
    let mut rest = sorted;
    let mut out: Vec<String> = Vec::new();
    while rest.len() > 0
        invariant
            rest.deep_view().len() <= sv.len(),
            names_sorted(sv),
            rest.deep_view() == sv.subrange(sv.len() - rest.deep_view().len(), sv.len() as int),
            strictly_sorted(out.deep_view()),
            out.deep_view().to_set() == sv.subrange(0, sv.len() - rest.deep_view().len()).to_set(),
            out.deep_view().len() > 0 ==> (sv.len() - rest.deep_view().len() >= 1
                && out.deep_view().last() == sv[sv.len() - rest.deep_view().len() - 1]),
        decreases rest.len(),
    {
        let ghost done = sv.len() - rest.deep_view().len();
        let ghost before = rest.deep_view();
        let ghost before_raw = rest@;
        let x = rest.remove(0);
        proof {
            broadcast use vstd::seq_lib::group_seq_properties;
            assert(rest.deep_view() =~= before.drop_first());
            assert(before[0] == before_raw[0].deep_view());
            assert(x@ == sv[done]);
            assert(sv.subrange(0, done + 1) =~= sv.subrange(0, done).push(sv[done]));
            assert(sv.subrange(0, done + 1).to_set() =~= sv.subrange(0, done).to_set().insert(sv[done]));
        }
        let n = out.len();
        let repeat = n > 0 && str_eq(out[n - 1].as_str(), x.as_str());
        if !repeat {
            proof {
                if n > 0 {
                    assert(out.deep_view()[n - 1] == out@[n - 1]@);
                    assert(seq_le(sv[done - 1], sv[done]));
                }
            }
            let ghost old_out = out.deep_view();
            out.push(x);
            proof {
                assert(out.deep_view() =~= old_out.push(sv[done]));
                assert forall|i: int, j: int| 0 <= i < j < out.deep_view().len() implies seq_lt(
                    #[trigger] out.deep_view()[i],
                    #[trigger] out.deep_view()[j],
                ) by {
                    if j == out.deep_view().len() - 1 && i < j {
                        if i < n - 1 {
                            assert(seq_lt(old_out[i], old_out[n - 1]));
                            crate::strings::lemma_seq_lt_transitive(old_out[i], old_out[n - 1], sv[done]);
                        }
                    }
                }
                broadcast use vstd::seq_lib::group_seq_properties;
                assert(out.deep_view().to_set() =~= old_out.to_set().insert(sv[done]));
            }
        } else {
            proof {
                assert(out.deep_view()[n - 1] == out@[n - 1]@);
                assert(out.deep_view().contains(sv[done]));
                assert(out.deep_view().to_set().contains(sv[done]));
                assert(out.deep_view().to_set() =~= out.deep_view().to_set().insert(sv[done]));
            }
        }
        proof {
            assert(rest.deep_view() =~= sv.subrange(done + 1, sv.len() as int));
        }
    }
    proof {
        assert(sv.subrange(0, sv.len() as int) =~= sv);
    }
    out
}

/// What happens to `_meta.json` for a tag-suggestion call: either nothing is
/// written and the call answers with the flag, or the record is written back
/// (and the call answers `true`).
#[derive(Debug)]
pub enum MetaChange {
    Unchanged(bool),
    Write(SessionMeta),
}

pub open spec fn pending_state(
    m: SessionMetaView,
    source_hash: Seq<char>,
    algorithm_version: u32,
) -> TagSuggestionStateView {
    let dismissed = match m.tag_suggestions {
        Some(s) => if s.algorithm_version == algorithm_version {
            s.dismissed
        } else {
            Seq::<Seq<char>>::empty()
        },
        None => Seq::<Seq<char>>::empty(),
    };
    TagSuggestionStateView {
        source_hash,
        algorithm_version,
        status: TagSuggestionStatus::Pending,
        items: Seq::<TagSuggestionItemView>::empty(),
        dismissed,
    }
}

/// Starting a suggestion run: a run for the same source and algorithm is
/// answered from its state (pending or not) without a write; otherwise a fresh
/// pending state is written, keeping the dismissals of the same algorithm.
pub fn mark_tag_suggestions_pending(meta: SessionMeta, source_hash: String, algorithm_version: u32) -> (r: MetaChange)
    ensures
        ({
            let m = meta.deep_view();
            match m.tag_suggestions {
                Some(s) if s.source_hash == source_hash@ && s.algorithm_version == algorithm_version =>
                    r == MetaChange::Unchanged(s.status == TagSuggestionStatus::Pending),
                _ => r matches MetaChange::Write(w) && w.deep_view() == (SessionMetaView {
                    tag_suggestions: Some(pending_state(m, source_hash@, algorithm_version)),
                    ..m
                }),
            }
        }),
{
    let ghost m0 = meta.deep_view();
    let mut meta = meta;
    if let Some(state) = &meta.tag_suggestions {
        if state.source_hash == source_hash && state.algorithm_version == algorithm_version {
            return MetaChange::Unchanged(state.status == TagSuggestionStatus::Pending);
        }
    }
    let previous = meta.tag_suggestions.take();
    let dismissed = match previous {
        Some(state) => if state.algorithm_version == algorithm_version {
            state.dismissed
        } else {
            Vec::new()
        },
        None => Vec::new(),
    };
    proof {
        assert(dismissed.deep_view() =~= pending_state(m0, source_hash@, algorithm_version).dismissed);
    }
    meta.tag_suggestions = Some(
        TagSuggestionState {
            source_hash,
            algorithm_version,
            status: TagSuggestionStatus::Pending,
            items: Vec::new(),
            dismissed,
        },
    );
    proof {
        assert(meta.deep_view().tag_suggestions.unwrap().items =~= Seq::<TagSuggestionItemView>::empty());
        assert(meta.deep_view() =~= SessionMetaView {
            tag_suggestions: Some(pending_state(m0, source_hash@, algorithm_version)),
            ..m0
        });
    }
    MetaChange::Write(meta)
}


/// One suggestion handed to `complete_tag_suggestions`, with whether its
/// confidence reached the auto-accept threshold (`false` when there is none).
#[derive(Debug)]
pub struct ScoredSuggestion {
    pub item: TagSuggestionItem,
    pub auto_accept: bool,
}

pub struct ScoredSuggestionView {
    pub item: TagSuggestionItemView,
    pub auto_accept: bool,
}

impl DeepView for ScoredSuggestion {
    type V = ScoredSuggestionView;

    open spec fn deep_view(&self) -> ScoredSuggestionView {
        ScoredSuggestionView { item: self.item.deep_view(), auto_accept: self.auto_accept }
    }
}

/// Walks the suggestions in order: non-candidates, tags already present
/// (including ones accepted earlier in the walk) and dismissed names are
/// skipped; the rest are either accepted as tags or kept as suggestions.
pub open spec fn completion_fold(
    tags: Seq<Seq<char>>,
    dismissed: Seq<Seq<char>>,
    suggestions: Seq<ScoredSuggestionView>,
) -> (Seq<Seq<char>>, Seq<TagSuggestionItemView>)
    decreases suggestions.len(),
{
    if suggestions.len() == 0 {
        (tags, Seq::<TagSuggestionItemView>::empty())
    } else {
        let prev = completion_fold(tags, dismissed, suggestions.drop_last());
        let s = suggestions.last();
        if !is_automation_candidate(s.item.name) || prev.0.contains(s.item.name)
            || dismissed.contains(s.item.name) {
            prev
        } else if s.auto_accept {
            (prev.0.push(s.item.name), prev.1)
        } else {
            (prev.0, prev.1.push(s.item))
        }
    }
}

/// Finishing a suggestion run: only the pending run for the same source and
/// algorithm may complete (otherwise nothing is written and the answer is
/// `false`). Accepted names join the tags, which end sorted without repeats;
/// the remaining suggestions are stored and the run is complete.
pub fn complete_tag_suggestions(
    meta: SessionMeta,
    source_hash: &str,
    algorithm_version: u32,
    suggestions: Vec<ScoredSuggestion>,
) -> (r: MetaChange)
    ensures
        ({
            let m = meta.deep_view();
            match m.tag_suggestions {
                Some(st) if st.source_hash == source_hash@ && st.algorithm_version
                    == algorithm_version && st.status == TagSuggestionStatus::Pending => {
                    let folded = completion_fold(m.tags, st.dismissed, suggestions.deep_view());
                    r matches MetaChange::Write(w) && ({
                        let wv = w.deep_view();
                        &&& strictly_sorted(wv.tags)
                        &&& wv.tags.to_set() == folded.0.to_set()
                        &&& wv == (SessionMetaView {
                            tags: wv.tags,
                            tag_suggestions: Some(
                                TagSuggestionStateView {
                                    source_hash: source_hash@,
                                    algorithm_version,
                                    status: TagSuggestionStatus::Complete,
                                    items: folded.1,
                                    dismissed: st.dismissed,
                                },
                            ),
                            ..m
                        })
                    })
                },
                _ => r == MetaChange::Unchanged(false),
            }
        }),
{
    let ghost m0 = meta.deep_view();
    let mut meta = meta;
    let applies = match &meta.tag_suggestions {
        Some(current) => str_eq(current.source_hash.as_str(), source_hash)
            && current.algorithm_version == algorithm_version && current.status
            == TagSuggestionStatus::Pending,
        None => false,
    };
    if !applies {
        return MetaChange::Unchanged(false);
    }
    let state = meta.tag_suggestions.take().unwrap();
    let TagSuggestionState { source_hash: _, algorithm_version: _, status: _, items: _, dismissed } = state;
    let ghost dv = dismissed.deep_view();
    let ghost all = suggestions.deep_view();
    let mut tags: Vec<String> = Vec::new();
    std::mem::swap(&mut tags, &mut meta.tags);
    let mut remaining: Vec<TagSuggestionItem> = Vec::new();
    let mut rest = suggestions;
    assert(all.subrange(0, 0) =~= Seq::<ScoredSuggestionView>::empty());
    while rest.len() > 0
        invariant
            rest.deep_view().len() <= all.len(),
            rest.deep_view() == all.subrange(all.len() - rest.deep_view().len(), all.len() as int),
            dv == dismissed.deep_view(),
            (tags.deep_view(), remaining.deep_view()) == completion_fold(
                m0.tags,
                dv,
                all.subrange(0, all.len() - rest.deep_view().len()),
            ),
        decreases rest.len(),
    {
        let ghost done = all.len() - rest.deep_view().len();
        let ghost before = rest.deep_view();
        let ghost before_raw = rest@;
        let s = rest.remove(0);
        proof {
            assert(rest.deep_view() =~= before.drop_first());
            assert(before[0] == before_raw[0].deep_view());
            assert(s.deep_view() == all[done]);
            assert(all.subrange(0, done + 1).drop_last() =~= all.subrange(0, done));
        }
        let ScoredSuggestion { item, auto_accept } = s;
        let skip = !is_tag_automation_candidate(item.name.as_str()) || vec_contains_str(
            &tags,
            item.name.as_str(),
        ) || vec_contains_str(&dismissed, item.name.as_str());
        if !skip {
            if auto_accept {
                let ghost t0 = tags.deep_view();
                tags.push(item.name);
                proof {
                    assert(tags.deep_view() =~= t0.push(all[done].item.name));
                }
            } else {
                let ghost r0 = remaining.deep_view();
                remaining.push(item);
                proof {
                    assert(remaining.deep_view() =~= r0.push(all[done].item));
                }
            }
        }
        proof {
            assert(rest.deep_view() =~= all.subrange(done + 1, all.len() as int));
        }
    }
    proof {
        assert(all.subrange(0, all.len() as int) =~= all);
    }
    let tags = sort_dedup_names(tags);
    meta.tags = tags;
    meta.tag_suggestions = Some(
        TagSuggestionState {
            source_hash: crate::strings::to_owned_string(source_hash),
            algorithm_version,
            status: TagSuggestionStatus::Complete,
            items: remaining,
            dismissed,
        },
    );
    proof {
        let wv = meta.deep_view();
        assert(wv =~= SessionMetaView {
            tags: wv.tags,
            tag_suggestions: Some(
                TagSuggestionStateView {
                    source_hash: source_hash@,
                    algorithm_version,
                    status: TagSuggestionStatus::Complete,
                    items: completion_fold(m0.tags, dv, all).1,
                    dismissed: dv,
                },
            ),
            ..m0
        });
    }
    MetaChange::Write(meta)
}

/// Whether some suggestion carries this name.
pub fn items_contain_name(items: &Vec<TagSuggestionItem>, name: &str) -> (r: bool)
    ensures
        r == exists|i: int| 0 <= i < items@.len() && #[trigger] items@[i].name@ == name@,
{
    let mut i: usize = 0;
    while i < items.len()
        invariant
            i <= items.len(),
            forall|j: int| 0 <= j < i ==> items@[j].name@ != name@,
        decreases items.len() - i,
    {
        if str_eq(items[i].name.as_str(), name) {
            return true;
        }
        i = i + 1;
    }
    false
}

/// Suggestions other than the named one.
pub open spec fn items_without(items: Seq<TagSuggestionItemView>, name: Seq<char>) -> Seq<TagSuggestionItemView> {
    items.filter(|it: TagSuggestionItemView| it.name != name)
}

fn remove_items_named(items: Vec<TagSuggestionItem>, name: &str) -> (r: Vec<TagSuggestionItem>)
    ensures
        r.deep_view() == items_without(items.deep_view(), name@),
{
    let ghost pred = |it: TagSuggestionItemView| it.name != name@;
    let ghost all = items.deep_view();
    let mut rest = items;
    let mut kept: Vec<TagSuggestionItem> = Vec::new();
    while rest.len() > 0
        invariant
            rest.deep_view().len() <= all.len(),
            rest.deep_view() == all.subrange(all.len() - rest.deep_view().len(), all.len() as int),
            kept.deep_view() == all.subrange(0, all.len() - rest.deep_view().len()).filter(pred),
            pred == (|it: TagSuggestionItemView| it.name != name@),
        decreases rest.len(),
    {
        let ghost done = all.len() - rest.deep_view().len();
        let ghost before = rest.deep_view();
        let ghost before_raw = rest@;
        let x = rest.remove(0);
        proof {
            assert(rest.deep_view() =~= before.drop_first());
            assert(before[0] == before_raw[0].deep_view());
            assert(x.deep_view() == all[done]);
            assert(all.subrange(0, done + 1).drop_last() =~= all.subrange(0, done));
            reveal_with_fuel(Seq::<_>::filter, 1);
        }
        if !str_eq(x.name.as_str(), name) {
            kept.push(x);
        }
        proof {
            assert(kept.deep_view() =~= all.subrange(0, done + 1).filter(pred));
            assert(rest.deep_view() =~= all.subrange(done + 1, all.len() as int));
        }
    }
    proof {
        assert(all.subrange(0, all.len() as int) =~= all);
    }
    kept
}

/// Adds a name to a list that is then sorted, unless the name is already there.
pub open spec fn with_name_sorted(names: Seq<String>, name: String, result: Seq<String>) -> bool {
    if names.map_values(|x: String| x@).contains(name@) {
        result == names
    } else {
        names_sorted(result.map_values(|x: String| x@)) && result.to_multiset() == names.push(
            name,
        ).to_multiset()
    }
}

fn add_name_sorted(names: Vec<String>, name: String) -> (r: Vec<String>)
    ensures
        with_name_sorted(names@, name, r@),
{
    if vec_contains_str(&names, name.as_str()) {
        proof {
            assert(names.deep_view() =~= names@.map_values(|x: String| x@));
        }
        names
    } else {
        proof {
            assert(names.deep_view() =~= names@.map_values(|x: String| x@));
        }
        let ghost n0 = names@;
        let mut names = names;
        names.push(name);
        let r = sort_names(names);
        proof {
            assert(r.deep_view() =~= r@.map_values(|x: String| x@));
        }
        r
    }
}

/// Accepting a suggestion moves the name from the pending suggestions into the
/// tags (sorted); a name that is not suggested changes nothing.
pub fn accept_tag_suggestion(meta: SessionMeta, name: String) -> (r: MetaChange)
    ensures
        ({
            let m = meta.deep_view();
            match meta.tag_suggestions {
                Some(st) if exists|i: int| 0 <= i < st.items@.len() && #[trigger] st.items@[i].name@ == name@ =>
                    r matches MetaChange::Write(w) && with_name_sorted(meta.tags@, name, w.tags@)
                        && w.deep_view() == (SessionMetaView {
                        tags: w.deep_view().tags,
                        tag_suggestions: Some(TagSuggestionStateView {
                            items: items_without(st.deep_view().items, name@),
                            ..st.deep_view()
                        }),
                        ..m
                    }),
                _ => r == MetaChange::Unchanged(false),
            }
        }),
{
    let ghost m0 = meta.deep_view();
    let ghost t0 = meta.tags@;
    let mut meta = meta;
    let found = match &meta.tag_suggestions {
        Some(state) => items_contain_name(&state.items, name.as_str()),
        None => false,
    };
    if !found {
        return MetaChange::Unchanged(false);
    }
    let state = meta.tag_suggestions.take().unwrap();
    let ghost sv = state.deep_view();
    let TagSuggestionState { source_hash, algorithm_version, status, items, dismissed } = state;
    let items = remove_items_named(items, name.as_str());
    meta.tag_suggestions = Some(TagSuggestionState { source_hash, algorithm_version, status, items, dismissed });
    let mut tags: Vec<String> = Vec::new();
    std::mem::swap(&mut tags, &mut meta.tags);
    meta.tags = add_name_sorted(tags, name);
    proof {
        let wv = meta.deep_view();
        assert(wv =~= SessionMetaView {
            tags: wv.tags,
            tag_suggestions: Some(TagSuggestionStateView { items: items_without(sv.items, name@), ..sv }),
            ..m0
        });
    }
    MetaChange::Write(meta)
}

/// Dismissing a suggestion moves the name from the pending suggestions into the
/// dismissed list (sorted); a name that is not suggested changes nothing.
pub fn dismiss_tag_suggestion(meta: SessionMeta, name: String) -> (r: MetaChange)
    ensures
        ({
            let m = meta.deep_view();
            match meta.tag_suggestions {
                Some(st) if exists|i: int| 0 <= i < st.items@.len() && #[trigger] st.items@[i].name@ == name@ =>
                    r matches MetaChange::Write(w) && w.tag_suggestions matches Some(ws)
                        && with_name_sorted(st.dismissed@, name, ws.dismissed@)
                        && w.deep_view() == (SessionMetaView {
                        tag_suggestions: Some(TagSuggestionStateView {
                            items: items_without(st.deep_view().items, name@),
                            dismissed: ws.dismissed.deep_view(),
                            ..st.deep_view()
                        }),
                        ..m
                    }),
                _ => r == MetaChange::Unchanged(false),
            }
        }),
{
    let ghost m0 = meta.deep_view();
    let mut meta = meta;
    let found = match &meta.tag_suggestions {
        Some(state) => items_contain_name(&state.items, name.as_str()),
        None => false,
    };
    if !found {
        return MetaChange::Unchanged(false);
    }
    let state = meta.tag_suggestions.take().unwrap();
    let ghost sv = state.deep_view();
    let TagSuggestionState { source_hash, algorithm_version, status, items, dismissed } = state;
    let items = remove_items_named(items, name.as_str());
    let dismissed = add_name_sorted(dismissed, name);
    meta.tag_suggestions = Some(TagSuggestionState { source_hash, algorithm_version, status, items, dismissed });
    proof {
        let wv = meta.deep_view();
        let ws = meta.tag_suggestions.unwrap();
        assert(wv =~= SessionMetaView {
            tag_suggestions: Some(TagSuggestionStateView {
                items: items_without(sv.items, name@),
                dismissed: ws.dismissed.deep_view(),
                ..sv
            }),
            ..m0
        });
    }
    MetaChange::Write(meta)
}

/// A recording start stamps `started_at` only the first time; `None` means
/// nothing needs writing.
pub fn mark_recording_started(meta: SessionMeta, at: String) -> (r: Option<SessionMeta>)
    ensures
        meta.started_at is Some ==> r is None,
        meta.started_at is None ==> (r matches Some(w) && w.deep_view() == (SessionMetaView {
            started_at: Some(at@),
            ..meta.deep_view()
        })),
{
    if meta.started_at.is_some() {
        return None;
    }
    let ghost m0 = meta.deep_view();
    let mut meta = meta;
    meta.started_at = Some(at);
    proof {
        assert(meta.deep_view() =~= SessionMetaView { started_at: Some(at@), ..m0 });
    }
    Some(meta)
}

/// A recording stop always advances `ended_at` to the latest stop.
pub fn mark_recording_ended(meta: SessionMeta, at: String) -> (r: SessionMeta)
    ensures
        r.deep_view() == (SessionMetaView { ended_at: Some(at@), ..meta.deep_view() }),
{
    let ghost m0 = meta.deep_view();
    let mut meta = meta;
    meta.ended_at = Some(at);
    proof {
        assert(meta.deep_view() =~= SessionMetaView { ended_at: Some(at@), ..m0 });
    }
    meta
}


impl DeepCopy for TagSuggestionItem {
    fn deep_copy(&self) -> (r: Self) {
        TagSuggestionItem { name: self.name.clone(), confidence_bits: self.confidence_bits }
    }
}

impl DeepCopy for TagSuggestionState {
    fn deep_copy(&self) -> (r: Self) {
        TagSuggestionState {
            source_hash: self.source_hash.clone(),
            algorithm_version: self.algorithm_version,
            status: self.status,
            items: copy_vec(&self.items),
            dismissed: copy_vec(&self.dismissed),
        }
    }
}

impl DeepCopy for SessionMeta {
    fn deep_copy(&self) -> (r: Self) {
        SessionMeta {
            id: self.id.clone(),
            title: self.title.clone(),
            started_at: copy_opt(&self.started_at),
            ended_at: copy_opt(&self.ended_at),
            created_at: self.created_at.clone(),
            tags: copy_vec(&self.tags),
            tag_suggestions: copy_opt(&self.tag_suggestions),
            tracking_id: copy_opt(&self.tracking_id),
            folder: copy_opt(&self.folder),
            author: copy_opt(&self.author),
            skill_json: copy_opt(&self.skill_json),
            extra_json: self.extra_json.clone(),
            event_tracking_id: copy_opt(&self.event_tracking_id),
        }
    }
}


/// Applying the same patch twice leaves the metadata as applying it once:
/// a patch sets fields, it does not accumulate.
pub proof fn lemma_meta_patch_idempotent(m: SessionMetaView, p: SessionMetaPatchView)
    ensures
        patched_meta(patched_meta(m, p), p) == patched_meta(m, p),
{
    match (p.tags, m.tag_suggestions) {
        (Some(t), Some(s)) => {
            crate::record::lemma_filter_twice(s.items, |it: TagSuggestionItemView| !t.contains(it.name));
        },
        _ => {},
    }
}


/// A patch sets exactly the fields it gives: each `Some(v)` field of the
/// patch holds `v` afterwards, each absent field keeps its current value, the
/// fields a patch cannot name never change, and new tags drop exactly the
/// pending suggestions they name, keeping the rest in order.
pub proof fn lemma_meta_patch_sets_given_fields(m: SessionMetaView, p: SessionMetaPatchView)
    ensures
        ({
            let r = patched_meta(m, p);
            &&& (p.title matches Some(v) ==> r.title == v) && (p.title is None ==> r.title == m.title)
            &&& (p.started_at matches Some(v) ==> r.started_at == Some(v)) && (p.started_at is None
                ==> r.started_at == m.started_at)
            &&& (p.ended_at matches Some(v) ==> r.ended_at == Some(v)) && (p.ended_at is None ==> r.ended_at
                == m.ended_at)
            &&& (p.created_at matches Some(v) ==> r.created_at == v) && (p.created_at is None ==> r.created_at
                == m.created_at)
            &&& (p.tags matches Some(v) ==> r.tags == v) && (p.tags is None ==> r.tags == m.tags)
            &&& (p.tracking_id matches Some(v) ==> r.tracking_id == Some(v)) && (p.tracking_id is None
                ==> r.tracking_id == m.tracking_id)
            &&& (p.folder matches Some(v) ==> r.folder == Some(v)) && (p.folder is None ==> r.folder == m.folder)
            &&& (p.author matches Some(v) ==> r.author == Some(v)) && (p.author is None ==> r.author == m.author)
            &&& r.id == m.id && r.skill_json == m.skill_json && r.extra_json == m.extra_json
            &&& r.event_tracking_id == m.event_tracking_id
            &&& (m.tag_suggestions is None ==> r.tag_suggestions is None)
            &&& (p.tags is None ==> r.tag_suggestions == m.tag_suggestions)
            &&& (p.tags matches Some(t) ==> m.tag_suggestions matches Some(s) ==> r.tag_suggestions matches Some(rs)
                && rs.source_hash == s.source_hash && rs.algorithm_version == s.algorithm_version && rs.status
                == s.status && rs.dismissed == s.dismissed
                && (forall|i: int| 0 <= i < rs.items.len() ==> #[trigger] s.items.contains(rs.items[i]) && !t.contains(
                rs.items[i].name))
                && (forall|i: int| 0 <= i < s.items.len() && !t.contains(#[trigger] s.items[i].name) ==> rs.items.contains(
                s.items[i])))
        }),
{
    match (p.tags, m.tag_suggestions) {
        (Some(t), Some(s)) => {
            let pred = |it: TagSuggestionItemView| !t.contains(it.name);
            let kept = s.items.filter(pred);
            assert forall|i: int| 0 <= i < kept.len() implies #[trigger] s.items.contains(kept[i]) && !t.contains(
                kept[i].name) by {
                s.items.lemma_filter_pred(pred, i);
                assert(kept.contains(kept[i]));
                s.items.lemma_filter_contains_rev(pred, kept[i]);
            }
            assert forall|i: int| 0 <= i < s.items.len() && !t.contains(#[trigger] s.items[i].name) implies kept.contains(
                s.items[i]) by {
                s.items.lemma_filter_contains(pred, i);
            }
        },
        _ => {},
    }
}

} // verus!
