//! Vault storage accounting: how a walk of the vault classifies each entry,
//! and the per-category tally it keeps. The walk itself (directory handles,
//! metadata reads, the time budget) belongs to the caller, which reports each
//! entry here and follows the step it gets back.

use vstd::prelude::*;

use crate::order::SortKey;
use crate::strings::{ascii_lower, seq_starts_with, str_eq, str_starts_with, to_ascii_lowercase};

verus! {

/// Directories deeper than this are not entered.
pub const MAX_DEPTH: usize = 64;

/// A walk stops after this many entries.
pub const MAX_ENTRIES: usize = 250000;

/// The kinds of file the storage report tells apart.
#[derive(Debug, Clone, Copy, PartialEq, Eq, Structural)]
pub enum VaultStorageCategory {
    Mp3,
    Wav,
    Images,
    Pdf,
    Json,
    Markdown,
    Other,
}

/// A category's place in the fixed report order.
pub open spec fn category_rank(c: VaultStorageCategory) -> int {
    match c {
        VaultStorageCategory::Mp3 => 0,
        VaultStorageCategory::Wav => 1,
        VaultStorageCategory::Images => 2,
        VaultStorageCategory::Pdf => 3,
        VaultStorageCategory::Json => 4,
        VaultStorageCategory::Markdown => 5,
        VaultStorageCategory::Other => 6,
    }
}

fn category_rank_exec(c: VaultStorageCategory) -> (r: u8)
    ensures
        r == category_rank(c),
{
    match c {
        VaultStorageCategory::Mp3 => 0,
        VaultStorageCategory::Wav => 1,
        VaultStorageCategory::Images => 2,
        VaultStorageCategory::Pdf => 3,
        VaultStorageCategory::Json => 4,
        VaultStorageCategory::Markdown => 5,
        VaultStorageCategory::Other => 6,
    }
}

/// Bytes and file count of one category.
#[derive(Debug)]
pub struct VaultStorageBucket {
    pub category: VaultStorageCategory,
    pub bytes: u64,
    pub files: u64,
}

impl DeepView for VaultStorageBucket {
    type V = (VaultStorageCategory, u64, u64);

    open spec fn deep_view(&self) -> (VaultStorageCategory, u64, u64) {
        (self.category, self.bytes, self.files)
    }
}

/// Report order: most bytes first, ties in the fixed category order.
impl SortKey for VaultStorageBucket {
    open spec fn spec_le(&self, other: &Self) -> bool {
        self.bytes > other.bytes || (self.bytes == other.bytes && category_rank(self.category)
            <= category_rank(other.category))
    }

    proof fn lemma_le_total(a: &Self, b: &Self) {
    }

    proof fn lemma_le_transitive(a: &Self, b: &Self, c: &Self) {
    }

    fn le(&self, other: &Self) -> (r: bool) {
        self.bytes > other.bytes || (self.bytes == other.bytes && category_rank_exec(self.category)
            <= category_rank_exec(other.category))
    }
}

/// What a storage walk found.
#[derive(Debug)]
pub struct VaultStorageStats {
    pub total_bytes: u64,
    pub files: u64,
    pub categories: Vec<VaultStorageBucket>,
    pub trash_bytes: u64,
    pub trash_files: u64,
    pub unreadable_entries: u64,
    pub skipped_links: u64,
    pub scan_limited: bool,
    pub measured_at: String,
}

/// The extension of a file name as `Path::extension` reads it: the text after
/// the last dot, unless the name has no dot or its only dot leads it.
pub open spec fn extension_of(name: Seq<char>) -> Option<Seq<char>> {
    if exists|i: int| 0 < i < name.len() && name[i] == '.' {
        let i = choose|i: int| 0 < i < name.len() && name[i] == '.' && forall|j: int| i < j < name.len() ==> name[j] != '.';
        Some(name.subrange(i + 1, name.len() as int))
    } else {
        None
    }
}

/// The category of a file by its name: hidden files are `Other`, the rest go
/// by their lowercased extension.
pub open spec fn category_of(name: Seq<char>) -> VaultStorageCategory {
    if name.len() > 0 && name[0] == '.' {
        VaultStorageCategory::Other
    } else {
        let ext = match extension_of(name) {
            Some(e) => ascii_lower(e),
            None => Seq::empty(),
        };
        if ext == "mp3"@ {
            VaultStorageCategory::Mp3
        } else if ext == "wav"@ || ext == "wave"@ {
            VaultStorageCategory::Wav
        } else if ext == "png"@ || ext == "jpg"@ || ext == "jpeg"@ || ext == "gif"@ || ext == "webp"@
            || ext == "heic"@ || ext == "heif"@ || ext == "avif"@ || ext == "svg"@ || ext == "tif"@
            || ext == "tiff"@ || ext == "bmp"@ || ext == "ico"@ {
            VaultStorageCategory::Images
        } else if ext == "pdf"@ {
            VaultStorageCategory::Pdf
        } else if ext == "json"@ {
            VaultStorageCategory::Json
        } else if ext == "md"@ || ext == "markdown"@ {
            VaultStorageCategory::Markdown
        } else {
            VaultStorageCategory::Other
        }
    }
}

/// The extension of a file name, as `Path::extension` reads it.
pub fn extension(name: &str) -> (r: Option<String>)
    ensures
        r is None <==> extension_of(name@) is None,
        r matches Some(e) ==> extension_of(name@) == Some(e@) && e@.len() + 2 <= name@.len(),
{
    let n = name.unicode_len();
    let mut i: usize = n;
    while i > 1
        invariant
            i <= n,
            n == name@.len(),
            forall|j: int| i <= j < n ==> name@[j] != '.',
        decreases i,
    {
        let k = i - 1;
        if name.get_char(k) == '.' {
            proof {
                let d = k as int;
                assert(0 < d < name@.len() && name@[d] == '.' && forall|j: int| d < j < name@.len() ==> name@[j] != '.');
                let c = choose|c: int| 0 < c < name@.len() && name@[c] == '.' && forall|j: int| c < j < name@.len() ==> name@[j] != '.';
                if c < d {
                    assert(name@[d] != '.');
                }
                if d < c {
                    assert(name@[c] != '.');
                }
            }
            return Some(crate::strings::substring(name, k + 1, n));
        }
        i = k;
    }
    None
}

/// The category of a file by its name.
pub fn category(name: &str) -> (r: VaultStorageCategory)
    ensures
        r == category_of(name@),
{
    let n = name.unicode_len();
    if n > 0 && name.get_char(0) == '.' {
        return VaultStorageCategory::Other;
    }
    let ext = match extension(name) {
        Some(e) => to_ascii_lowercase(e.as_str()),
        None => String::new(),
    };
    let e = ext.as_str();
    proof {
        reveal_strlit("mp3");
        reveal_strlit("wav");
        reveal_strlit("wave");
        reveal_strlit("png");
        reveal_strlit("jpg");
        reveal_strlit("jpeg");
        reveal_strlit("gif");
        reveal_strlit("webp");
        reveal_strlit("heic");
        reveal_strlit("heif");
        reveal_strlit("avif");
        reveal_strlit("svg");
        reveal_strlit("tif");
        reveal_strlit("tiff");
        reveal_strlit("bmp");
        reveal_strlit("ico");
        reveal_strlit("pdf");
        reveal_strlit("json");
        reveal_strlit("md");
        reveal_strlit("markdown");
    }
    if str_eq(e, "mp3") {
        VaultStorageCategory::Mp3
    } else if str_eq(e, "wav") || str_eq(e, "wave") {
        VaultStorageCategory::Wav
    } else if str_eq(e, "png") || str_eq(e, "jpg") || str_eq(e, "jpeg") || str_eq(e, "gif") || str_eq(e, "webp")
        || str_eq(e, "heic") || str_eq(e, "heif") || str_eq(e, "avif") || str_eq(e, "svg") || str_eq(e, "tif")
        || str_eq(e, "tiff") || str_eq(e, "bmp") || str_eq(e, "ico") {
        VaultStorageCategory::Images
    } else if str_eq(e, "pdf") {
        VaultStorageCategory::Pdf
    } else if str_eq(e, "json") {
        VaultStorageCategory::Json
    } else if str_eq(e, "md") || str_eq(e, "markdown") {
        VaultStorageCategory::Markdown
    } else {
        VaultStorageCategory::Other
    }
}

/// What the walk reports of an entry it could read the metadata of.
pub enum EntryKind {
    Symlink,
    Directory,
    File { bytes: u64 },
    /// Sockets, devices and the like: never read, never counted.
    Special,
}

/// What the walk does next with an entry.
#[derive(Debug, Clone, Copy, PartialEq, Eq, Structural)]
pub enum WalkStep {
    /// Nothing more to do with it.
    Done,
    /// Open the directory and walk it; its entries are in the trash when
    /// `in_trash`.
    Descend { in_trash: bool },
}

/// The vault-root entries the store itself owns: the lock file and recording
/// markers.
pub open spec fn is_store_marker(depth: int, name: Seq<char>) -> bool {
    depth == 1 && (name == ".loofah-lock"@ || seq_starts_with(name, ".loofah-recording-"@))
}

/// Bytes over all buckets.
pub open spec fn bucket_bytes(b: Seq<VaultStorageBucket>) -> int
    decreases b.len(),
{
    if b.len() == 0 {
        0
    } else {
        bucket_bytes(b.drop_last()) + b.last().bytes
    }
}

/// Files over all buckets.
pub open spec fn bucket_files(b: Seq<VaultStorageBucket>) -> int
    decreases b.len(),
{
    if b.len() == 0 {
        0
    } else {
        bucket_files(b.drop_last()) + b.last().files
    }
}

proof fn lemma_bucket_update(b: Seq<VaultStorageBucket>, r: int, nb: VaultStorageBucket)
    requires
        0 <= r < b.len(),
    ensures
        bucket_bytes(b.update(r, nb)) == bucket_bytes(b) - b[r].bytes + nb.bytes,
        bucket_files(b.update(r, nb)) == bucket_files(b) - b[r].files + nb.files,
        b[r].bytes <= bucket_bytes(b),
        b[r].files <= bucket_files(b),
    decreases b.len(),
{
    lemma_bucket_sums_nonneg(b.drop_last());
    if r < b.len() - 1 {
        assert(b.update(r, nb).drop_last() =~= b.drop_last().update(r, nb));
        lemma_bucket_update(b.drop_last(), r, nb);
    } else {
        assert(b.update(r, nb).drop_last() =~= b.drop_last());
    }
}

proof fn lemma_bucket_sums_nonneg(b: Seq<VaultStorageBucket>)
    ensures
        bucket_bytes(b) >= 0,
        bucket_files(b) >= 0,
    decreases b.len(),
{
    if b.len() > 0 {
        lemma_bucket_sums_nonneg(b.drop_last());
    }
}

/// Removing a bucket from the list removes its bytes and files from the sums.
proof fn lemma_bucket_remove(b: Seq<VaultStorageBucket>, j: int)
    requires
        0 <= j < b.len(),
    ensures
        bucket_bytes(b) == bucket_bytes(b.remove(j)) + b[j].bytes,
        bucket_files(b) == bucket_files(b.remove(j)) + b[j].files,
    decreases b.len(),
{
    if j < b.len() - 1 {
        lemma_bucket_remove(b.drop_last(), j);
        assert(b.remove(j).drop_last() =~= b.drop_last().remove(j));
        assert(b.remove(j).last() == b.last());
    } else {
        assert(b.remove(j) =~= b.drop_last());
    }
}

/// The sums do not depend on the order of the buckets.
proof fn lemma_bucket_sums_permutation(a: Seq<VaultStorageBucket>, b: Seq<VaultStorageBucket>)
    requires
        a.to_multiset() == b.to_multiset(),
    ensures
        bucket_bytes(a) == bucket_bytes(b),
        bucket_files(a) == bucket_files(b),
    decreases a.len(),
{
    broadcast use vstd::seq_lib::group_to_multiset_ensures;

    if a.len() == 0 {
        assert(b.to_multiset().len() == 0);
        assert(b.len() == 0);
    } else {
        let x = a.last();
        assert(a.drop_last().push(x) =~= a);
        assert(a.to_multiset() == a.drop_last().to_multiset().insert(x));
        assert(a.to_multiset().count(x) > 0);
        assert(b.contains(x));
        let j = choose|j: int| 0 <= j < b.len() && b[j] == x;
        assert(b.remove(j).to_multiset() == b.to_multiset().remove(x));
        assert(a.drop_last().to_multiset() =~= a.to_multiset().remove(x));
        lemma_bucket_sums_permutation(a.drop_last(), b.remove(j));
        lemma_bucket_remove(b, j);
    }
}

impl VaultStorageStats {
    /// The buckets are the seven categories, once each, and they add up to
    /// the totals; the trash counts lie within the totals.
    pub open spec fn buckets_wf(&self) -> bool {
        &&& self.categories@.len() == 7
        &&& forall|i: int| 0 <= i < 7 ==> category_rank(#[trigger] self.categories@[i].category) == i
        &&& bucket_bytes(self.categories@) == self.total_bytes
        &&& bucket_files(self.categories@) == self.files
        &&& self.trash_bytes <= self.total_bytes
        &&& self.trash_files <= self.files
    }

    /// Nothing counted yet, one empty bucket per category in the fixed order.
    pub fn new() -> (r: Self)
        ensures
            r.buckets_wf(),
            r.total_bytes == 0 && r.files == 0 && r.trash_bytes == 0 && r.trash_files == 0,
            r.unreadable_entries == 0 && r.skipped_links == 0 && !r.scan_limited,
            forall|i: int| 0 <= i < 7 ==> (#[trigger] r.categories@[i]).bytes == 0 && r.categories@[i].files == 0,
            r.measured_at@.len() == 0,
    {
        let mut categories: Vec<VaultStorageBucket> = Vec::new();
        categories.push(VaultStorageBucket { category: VaultStorageCategory::Mp3, bytes: 0, files: 0 });
        categories.push(VaultStorageBucket { category: VaultStorageCategory::Wav, bytes: 0, files: 0 });
        categories.push(VaultStorageBucket { category: VaultStorageCategory::Images, bytes: 0, files: 0 });
        categories.push(VaultStorageBucket { category: VaultStorageCategory::Pdf, bytes: 0, files: 0 });
        categories.push(VaultStorageBucket { category: VaultStorageCategory::Json, bytes: 0, files: 0 });
        categories.push(VaultStorageBucket { category: VaultStorageCategory::Markdown, bytes: 0, files: 0 });
        categories.push(VaultStorageBucket { category: VaultStorageCategory::Other, bytes: 0, files: 0 });
        proof {
            reveal_with_fuel(bucket_bytes, 8);
            reveal_with_fuel(bucket_files, 8);
        }
        VaultStorageStats {
            total_bytes: 0,
            files: 0,
            categories,
            trash_bytes: 0,
            trash_files: 0,
            unreadable_entries: 0,
            skipped_links: 0,
            scan_limited: false,
            measured_at: String::new(),
        }
    }

    /// An entry whose metadata or listing could not be read.
    pub fn note_unreadable(&mut self)
        requires
            old(self).unreadable_entries < u64::MAX,
        ensures
            *final(self) == (VaultStorageStats {
                unreadable_entries: (old(self).unreadable_entries + 1) as u64,
                ..*old(self)
            }),
    {
        self.unreadable_entries = self.unreadable_entries + 1;
    }

    /// Asked before each entry: the walk stops, marked limited, once it has
    /// visited `max_entries` entries or spent its time budget (both times in
    /// nanoseconds); otherwise nothing changes and it goes on.
    pub fn check_budget(&mut self, visited: usize, max_entries: usize, elapsed_nanos: u128, budget_nanos: u128) -> (stop: bool)
        ensures
            stop == (visited >= max_entries || elapsed_nanos >= budget_nanos),
            stop ==> *final(self) == (VaultStorageStats { scan_limited: true, ..*old(self) }),
            !stop ==> *final(self) == *old(self),
    {
        if visited >= max_entries || elapsed_nanos >= budget_nanos {
            self.scan_limited = true;
            true
        } else {
            false
        }
    }

    /// Counts one entry at `depth` (1 for the vault root's entries) and tells
    /// the walk what to do with it: store markers at the root are ignored,
    /// links are skipped (never followed), directories are entered down to
    /// the depth limit, cloud stubs count as unreadable, and a regular file's
    /// bytes go to its category, the totals, and the trash when it is under
    /// the root `.trash`.
    pub fn visit(&mut self, depth: usize, name: &str, kind: EntryKind, parent_in_trash: bool) -> (step: WalkStep)
        requires
            old(self).buckets_wf(),
            old(self).skipped_links < u64::MAX,
            old(self).unreadable_entries < u64::MAX,
            old(self).files < u64::MAX,
            old(self).trash_files < u64::MAX,
            kind matches EntryKind::File { bytes } ==> old(self).total_bytes + bytes <= u64::MAX
                && old(self).trash_bytes + bytes <= u64::MAX,
        ensures
            final(self).buckets_wf(),
            is_store_marker(depth as int, name@) ==> *final(self) == *old(self) && step == WalkStep::Done,
            !is_store_marker(depth as int, name@) ==> match kind {
                EntryKind::Symlink => *final(self) == (VaultStorageStats {
                    skipped_links: (old(self).skipped_links + 1) as u64,
                    ..*old(self)
                }) && step == WalkStep::Done,
                EntryKind::Directory => if depth >= MAX_DEPTH {
                    *final(self) == (VaultStorageStats { scan_limited: true, ..*old(self) }) && step == WalkStep::Done
                } else {
                    *final(self) == *old(self)
                        && step == (WalkStep::Descend { in_trash: parent_in_trash || (depth == 1 && name@ == ".trash"@) })
                },
                EntryKind::File { bytes } => if extension_of(name@) == Some("icloud"@) {
                    *final(self) == (VaultStorageStats {
                        unreadable_entries: (old(self).unreadable_entries + 1) as u64,
                        ..*old(self)
                    }) && step == WalkStep::Done
                } else {
                    let in_trash = parent_in_trash || (depth == 1 && name@ == ".trash"@);
                    let r = category_rank(category_of(name@));
                    &&& step == WalkStep::Done
                    &&& *final(self) == (VaultStorageStats {
                        total_bytes: (old(self).total_bytes + bytes) as u64,
                        files: (old(self).files + 1) as u64,
                        categories: final(self).categories,
                        trash_bytes: (old(self).trash_bytes + if in_trash { bytes } else { 0 }) as u64,
                        trash_files: (old(self).trash_files + if in_trash { 1int } else { 0 }) as u64,
                        ..*old(self)
                    })
                    &&& final(self).categories@.len() == 7
                    &&& final(self).categories@[r].category == old(self).categories@[r].category
                    &&& final(self).categories@[r].bytes == old(self).categories@[r].bytes + bytes
                    &&& final(self).categories@[r].files == old(self).categories@[r].files + 1
                    &&& forall|j: int| 0 <= j < 7 && j != r ==> #[trigger] final(self).categories@[j] == old(self).categories@[j]
                },
                EntryKind::Special => *final(self) == *old(self) && step == WalkStep::Done,
            },
    {
        proof {
            reveal_strlit(".loofah-lock");
            reveal_strlit(".loofah-recording-");
            reveal_strlit(".trash");
            reveal_strlit("icloud");
        }
        if depth == 1 && (str_eq(name, ".loofah-lock") || str_starts_with(name, ".loofah-recording-")) {
            return WalkStep::Done;
        }
        match kind {
            EntryKind::Symlink => {
                self.skipped_links = self.skipped_links + 1;
                WalkStep::Done
            },
            EntryKind::Directory => {
                let in_trash = parent_in_trash || (depth == 1 && str_eq(name, ".trash"));
                if depth >= MAX_DEPTH {
                    self.scan_limited = true;
                    WalkStep::Done
                } else {
                    WalkStep::Descend { in_trash }
                }
            },
            EntryKind::File { bytes } => {
                let stub = match extension(name) {
                    Some(e) => str_eq(e.as_str(), "icloud"),
                    None => false,
                };
                if stub {
                    self.unreadable_entries = self.unreadable_entries + 1;
                    return WalkStep::Done;
                }
                let in_trash = parent_in_trash || (depth == 1 && str_eq(name, ".trash"));
                let c = category(name);
                let r = category_rank_exec(c) as usize;
                let ghost before = self.categories@;
                proof {
                    lemma_bucket_update(before, r as int, before[r as int]);
                }
                let updated = VaultStorageBucket {
                    category: self.categories[r].category,
                    bytes: self.categories[r].bytes + bytes,
                    files: self.categories[r].files + 1,
                };
                proof {
                    lemma_bucket_update(before, r as int, updated);
                }
                self.categories.set(r, updated);
                self.total_bytes = self.total_bytes + bytes;
                self.files = self.files + 1;
                if in_trash {
                    self.trash_bytes = self.trash_bytes + bytes;
                    self.trash_files = self.trash_files + 1;
                }
                WalkStep::Done
            },
            EntryKind::Special => WalkStep::Done,
        }
    }

    /// Puts the buckets in report order: most bytes first, ties in the fixed
    /// category order. Everything else stays.
    pub fn finish(&mut self)
        ensures
            crate::order::sorted_seq(final(self).categories@),
            final(self).categories@.to_multiset() == old(self).categories@.to_multiset(),
            final(self).categories.deep_view().to_multiset() == old(self).categories.deep_view().to_multiset(),
            bucket_bytes(final(self).categories@) == bucket_bytes(old(self).categories@),
            bucket_files(final(self).categories@) == bucket_files(old(self).categories@),
            old(self).buckets_wf() ==> bucket_bytes(final(self).categories@) == final(self).total_bytes
                && bucket_files(final(self).categories@) == final(self).files
                && final(self).trash_bytes <= final(self).total_bytes && final(self).trash_files <= final(self).files,
            final(self).total_bytes == old(self).total_bytes,
            final(self).files == old(self).files,
            final(self).trash_bytes == old(self).trash_bytes,
            final(self).trash_files == old(self).trash_files,
            final(self).unreadable_entries == old(self).unreadable_entries,
            final(self).skipped_links == old(self).skipped_links,
            final(self).scan_limited == old(self).scan_limited,
            final(self).measured_at == old(self).measured_at,
    {
        let mut categories: Vec<VaultStorageBucket> = Vec::new();
        std::mem::swap(&mut categories, &mut self.categories);
        let ghost before = categories@;
        self.categories = crate::order::sort_records(categories);
        proof {
            lemma_bucket_sums_permutation(self.categories@, before);
        }
    }
}


/// `ext` spells the lowercase word `word` in any mix of ASCII case.
pub open spec fn spells_ignoring_case(ext: Seq<char>, word: Seq<char>) -> bool {
    &&& ext.len() == word.len()
    &&& forall|i: int| 0 <= i < ext.len() ==> #[trigger] ext[i] == word[i] || ('A' <= ext[i] && ext[i] <= 'Z' && ((
        ext[i] as u32) + 32) as char == word[i])
}

/// The extension a file name ends with after its last dot, when the part
/// before that dot is not empty.
pub proof fn lemma_extension_after_last_dot(stem: Seq<char>, ext: Seq<char>)
    requires
        stem.len() > 0,
        !ext.contains('.'),
    ensures
        extension_of(stem + seq!['.'] + ext) == Some(ext),
{
    let name = stem + seq!['.'] + ext;
    let d = stem.len() as int;
    assert(name[d] == '.');
    assert forall|j: int| d < j < name.len() implies name[j] != '.' by {
        assert(name[j] == ext[j - d - 1]);
    }
    let c = choose|i: int| 0 < i < name.len() && name[i] == '.' && forall|j: int| i < j < name.len() ==> name[j] != '.';
    if c > d {
        assert(name[c] == ext[c - d - 1]);
    }
    assert(c == d);
    assert(name.subrange(d + 1, name.len() as int) =~= ext);
}

/// A visible name whose extension spells `word` (lowercase) in any case is
/// filed under the lowercase `word`.
proof fn lemma_filed_by(stem: Seq<char>, ext: Seq<char>, word: Seq<char>)
    requires
        stem.len() > 0,
        stem[0] != '.',
        !ext.contains('.'),
        spells_ignoring_case(ext, word),
        forall|i: int| 0 <= i < word.len() ==> !('A' <= #[trigger] word[i] && word[i] <= 'Z'),
    ensures
        (stem + seq!['.'] + ext)[0] != '.',
        extension_of(stem + seq!['.'] + ext) == Some(ext),
        ascii_lower(ext) == word,
{
    assert((stem + seq!['.'] + ext)[0] == stem[0]);
    lemma_extension_after_last_dot(stem, ext);
    assert forall|i: int| 0 <= i < ext.len() implies #[trigger] ascii_lower(ext)[i] == word[i] by {
        assert(ascii_lower(ext)[i] == crate::strings::ascii_lower_char(ext[i]));
    }
    assert(ascii_lower(ext) =~= word);
}

/// A file is filed by its extension in any ASCII case: audio as `mp3` or
/// `wav`/`wave`, `pdf`, `json`, and `md`/`markdown` as Markdown; a hidden
/// file (leading dot) is `Other` whatever it ends with.
#[verifier::spinoff_prover]
#[verifier::rlimit(60)]
pub proof fn lemma_category_by_extension(stem: Seq<char>, ext: Seq<char>)
    requires
        stem.len() > 0,
        !ext.contains('.'),
    ensures
        stem[0] == '.' ==> category_of(stem + seq!['.'] + ext) == VaultStorageCategory::Other,
        stem[0] != '.' && spells_ignoring_case(ext, "mp3"@) ==> category_of(stem + seq!['.'] + ext)
            == VaultStorageCategory::Mp3,
        stem[0] != '.' && (spells_ignoring_case(ext, "wav"@) || spells_ignoring_case(ext, "wave"@)) ==> category_of(
            stem + seq!['.'] + ext,
        ) == VaultStorageCategory::Wav,
        stem[0] != '.' && spells_ignoring_case(ext, "pdf"@) ==> category_of(stem + seq!['.'] + ext)
            == VaultStorageCategory::Pdf,
        stem[0] != '.' && spells_ignoring_case(ext, "json"@) ==> category_of(stem + seq!['.'] + ext)
            == VaultStorageCategory::Json,
        stem[0] != '.' && (spells_ignoring_case(ext, "md"@) || spells_ignoring_case(ext, "markdown"@)) ==> category_of(
            stem + seq!['.'] + ext,
        ) == VaultStorageCategory::Markdown,
{
    assert((stem + seq!['.'] + ext)[0] == stem[0]);
    assert(stem[0] != '.' && spells_ignoring_case(ext, "mp3"@) ==> category_of(stem + seq!['.'] + ext)
        == VaultStorageCategory::Mp3) by {
        reveal_strlit("mp3");
        reveal_strlit("wav");
        reveal_strlit("wave");
        reveal_strlit("pdf");
        reveal_strlit("json");
        reveal_strlit("md");
        reveal_strlit("markdown");
        reveal_strlit("png");
        reveal_strlit("jpg");
        reveal_strlit("jpeg");
        reveal_strlit("gif");
        reveal_strlit("webp");
        reveal_strlit("heic");
        reveal_strlit("heif");
        reveal_strlit("avif");
        reveal_strlit("svg");
        reveal_strlit("tif");
        reveal_strlit("tiff");
        reveal_strlit("bmp");
        reveal_strlit("ico");
        if stem[0] != '.' && spells_ignoring_case(ext, "mp3"@) {
            assert("mp3"@ =~= seq!['m', 'p', '3']);
            lemma_filed_by(stem, ext, "mp3"@);
        }
    }
    assert(stem[0] != '.' && spells_ignoring_case(ext, "wav"@) ==> category_of(stem + seq!['.'] + ext)
        == VaultStorageCategory::Wav) by {
        reveal_strlit("mp3");
        reveal_strlit("wav");
        reveal_strlit("wave");
        reveal_strlit("pdf");
        reveal_strlit("json");
        reveal_strlit("md");
        reveal_strlit("markdown");
        reveal_strlit("png");
        reveal_strlit("jpg");
        reveal_strlit("jpeg");
        reveal_strlit("gif");
        reveal_strlit("webp");
        reveal_strlit("heic");
        reveal_strlit("heif");
        reveal_strlit("avif");
        reveal_strlit("svg");
        reveal_strlit("tif");
        reveal_strlit("tiff");
        reveal_strlit("bmp");
        reveal_strlit("ico");
        if stem[0] != '.' && spells_ignoring_case(ext, "wav"@) {
            assert("wav"@ =~= seq!['w', 'a', 'v']);
            lemma_filed_by(stem, ext, "wav"@);
        }
    }
    assert(stem[0] != '.' && spells_ignoring_case(ext, "wave"@) ==> category_of(stem + seq!['.'] + ext)
        == VaultStorageCategory::Wav) by {
        reveal_strlit("mp3");
        reveal_strlit("wav");
        reveal_strlit("wave");
        reveal_strlit("pdf");
        reveal_strlit("json");
        reveal_strlit("md");
        reveal_strlit("markdown");
        reveal_strlit("png");
        reveal_strlit("jpg");
        reveal_strlit("jpeg");
        reveal_strlit("gif");
        reveal_strlit("webp");
        reveal_strlit("heic");
        reveal_strlit("heif");
        reveal_strlit("avif");
        reveal_strlit("svg");
        reveal_strlit("tif");
        reveal_strlit("tiff");
        reveal_strlit("bmp");
        reveal_strlit("ico");
        if stem[0] != '.' && spells_ignoring_case(ext, "wave"@) {
            assert("wave"@ =~= seq!['w', 'a', 'v', 'e']);
            lemma_filed_by(stem, ext, "wave"@);
        }
    }
    assert(stem[0] != '.' && spells_ignoring_case(ext, "pdf"@) ==> category_of(stem + seq!['.'] + ext)
        == VaultStorageCategory::Pdf) by {
        reveal_strlit("mp3");
        reveal_strlit("wav");
        reveal_strlit("wave");
        reveal_strlit("pdf");
        reveal_strlit("json");
        reveal_strlit("md");
        reveal_strlit("markdown");
        reveal_strlit("png");
        reveal_strlit("jpg");
        reveal_strlit("jpeg");
        reveal_strlit("gif");
        reveal_strlit("webp");
        reveal_strlit("heic");
        reveal_strlit("heif");
        reveal_strlit("avif");
        reveal_strlit("svg");
        reveal_strlit("tif");
        reveal_strlit("tiff");
        reveal_strlit("bmp");
        reveal_strlit("ico");
        if stem[0] != '.' && spells_ignoring_case(ext, "pdf"@) {
            assert("pdf"@ =~= seq!['p', 'd', 'f']);
            lemma_filed_by(stem, ext, "pdf"@);
        }
    }
    assert(stem[0] != '.' && spells_ignoring_case(ext, "json"@) ==> category_of(stem + seq!['.'] + ext)
        == VaultStorageCategory::Json) by {
        reveal_strlit("mp3");
        reveal_strlit("wav");
        reveal_strlit("wave");
        reveal_strlit("pdf");
        reveal_strlit("json");
        reveal_strlit("md");
        reveal_strlit("markdown");
        reveal_strlit("png");
        reveal_strlit("jpg");
        reveal_strlit("jpeg");
        reveal_strlit("gif");
        reveal_strlit("webp");
        reveal_strlit("heic");
        reveal_strlit("heif");
        reveal_strlit("avif");
        reveal_strlit("svg");
        reveal_strlit("tif");
        reveal_strlit("tiff");
        reveal_strlit("bmp");
        reveal_strlit("ico");
        if stem[0] != '.' && spells_ignoring_case(ext, "json"@) {
            assert("json"@ =~= seq!['j', 's', 'o', 'n']);
            lemma_filed_by(stem, ext, "json"@);
        }
    }
    assert(stem[0] != '.' && spells_ignoring_case(ext, "md"@) ==> category_of(stem + seq!['.'] + ext)
        == VaultStorageCategory::Markdown) by {
        reveal_strlit("mp3");
        reveal_strlit("wav");
        reveal_strlit("wave");
        reveal_strlit("pdf");
        reveal_strlit("json");
        reveal_strlit("md");
        reveal_strlit("markdown");
        reveal_strlit("png");
        reveal_strlit("jpg");
        reveal_strlit("jpeg");
        reveal_strlit("gif");
        reveal_strlit("webp");
        reveal_strlit("heic");
        reveal_strlit("heif");
        reveal_strlit("avif");
        reveal_strlit("svg");
        reveal_strlit("tif");
        reveal_strlit("tiff");
        reveal_strlit("bmp");
        reveal_strlit("ico");
        if stem[0] != '.' && spells_ignoring_case(ext, "md"@) {
            assert("md"@ =~= seq!['m', 'd']);
            lemma_filed_by(stem, ext, "md"@);
        }
    }
    assert(stem[0] != '.' && spells_ignoring_case(ext, "markdown"@) ==> category_of(stem + seq!['.'] + ext)
        == VaultStorageCategory::Markdown) by {
        reveal_strlit("mp3");
        reveal_strlit("wav");
        reveal_strlit("wave");
        reveal_strlit("pdf");
        reveal_strlit("json");
        reveal_strlit("md");
        reveal_strlit("markdown");
        reveal_strlit("png");
        reveal_strlit("jpg");
        reveal_strlit("jpeg");
        reveal_strlit("gif");
        reveal_strlit("webp");
        reveal_strlit("heic");
        reveal_strlit("heif");
        reveal_strlit("avif");
        reveal_strlit("svg");
        reveal_strlit("tif");
        reveal_strlit("tiff");
        reveal_strlit("bmp");
        reveal_strlit("ico");
        if stem[0] != '.' && spells_ignoring_case(ext, "markdown"@) {
            assert("markdown"@ =~= seq!['m', 'a', 'r', 'k', 'd', 'o', 'w', 'n']);
            lemma_filed_by(stem, ext, "markdown"@);
        }
    }
}

/// Every visible file whose extension is one of the image formats (`png`,
/// `jpg`, `jpeg`, `gif`, `webp`, `heic`, `heif`, `avif`, `svg`, `tif`, `tiff`,
/// `bmp`, `ico`), in any ASCII case, is filed as an image.
#[verifier::spinoff_prover]
#[verifier::rlimit(80)]
pub proof fn lemma_image_extensions(stem: Seq<char>, ext: Seq<char>)
    requires
        stem.len() > 0,
        stem[0] != '.',
        !ext.contains('.'),
        spells_ignoring_case(ext, "png"@) || spells_ignoring_case(ext, "jpg"@) || spells_ignoring_case(ext, "jpeg"@)
            || spells_ignoring_case(ext, "gif"@) || spells_ignoring_case(ext, "webp"@) || spells_ignoring_case(ext, "heic"@)
            || spells_ignoring_case(ext, "heif"@) || spells_ignoring_case(ext, "avif"@) || spells_ignoring_case(ext, "svg"@)
            || spells_ignoring_case(ext, "tif"@) || spells_ignoring_case(ext, "tiff"@) || spells_ignoring_case(ext, "bmp"@)
            || spells_ignoring_case(ext, "ico"@),
    ensures
        category_of(stem + seq!['.'] + ext) == VaultStorageCategory::Images,
{
    assert((stem + seq!['.'] + ext)[0] == stem[0]);
    assert(stem[0] != '.' && spells_ignoring_case(ext, "png"@) ==> category_of(stem + seq!['.'] + ext)
        == VaultStorageCategory::Images) by {
        reveal_strlit("mp3");
        reveal_strlit("wav");
        reveal_strlit("wave");
        reveal_strlit("pdf");
        reveal_strlit("json");
        reveal_strlit("md");
        reveal_strlit("markdown");
        reveal_strlit("png");
        reveal_strlit("jpg");
        reveal_strlit("jpeg");
        reveal_strlit("gif");
        reveal_strlit("webp");
        reveal_strlit("heic");
        reveal_strlit("heif");
        reveal_strlit("avif");
        reveal_strlit("svg");
        reveal_strlit("tif");
        reveal_strlit("tiff");
        reveal_strlit("bmp");
        reveal_strlit("ico");
        if stem[0] != '.' && spells_ignoring_case(ext, "png"@) {
            assert("png"@ =~= seq!['p', 'n', 'g']);
            lemma_filed_by(stem, ext, "png"@);
        }
    }
    assert(stem[0] != '.' && spells_ignoring_case(ext, "jpg"@) ==> category_of(stem + seq!['.'] + ext)
        == VaultStorageCategory::Images) by {
        reveal_strlit("mp3");
        reveal_strlit("wav");
        reveal_strlit("wave");
        reveal_strlit("pdf");
        reveal_strlit("json");
        reveal_strlit("md");
        reveal_strlit("markdown");
        reveal_strlit("png");
        reveal_strlit("jpg");
        reveal_strlit("jpeg");
        reveal_strlit("gif");
        reveal_strlit("webp");
        reveal_strlit("heic");
        reveal_strlit("heif");
        reveal_strlit("avif");
        reveal_strlit("svg");
        reveal_strlit("tif");
        reveal_strlit("tiff");
        reveal_strlit("bmp");
        reveal_strlit("ico");
        if stem[0] != '.' && spells_ignoring_case(ext, "jpg"@) {
            assert("jpg"@ =~= seq!['j', 'p', 'g']);
            lemma_filed_by(stem, ext, "jpg"@);
        }
    }
    assert(stem[0] != '.' && spells_ignoring_case(ext, "jpeg"@) ==> category_of(stem + seq!['.'] + ext)
        == VaultStorageCategory::Images) by {
        reveal_strlit("mp3");
        reveal_strlit("wav");
        reveal_strlit("wave");
        reveal_strlit("pdf");
        reveal_strlit("json");
        reveal_strlit("md");
        reveal_strlit("markdown");
        reveal_strlit("png");
        reveal_strlit("jpg");
        reveal_strlit("jpeg");
        reveal_strlit("gif");
        reveal_strlit("webp");
        reveal_strlit("heic");
        reveal_strlit("heif");
        reveal_strlit("avif");
        reveal_strlit("svg");
        reveal_strlit("tif");
        reveal_strlit("tiff");
        reveal_strlit("bmp");
        reveal_strlit("ico");
        if stem[0] != '.' && spells_ignoring_case(ext, "jpeg"@) {
            assert("jpeg"@ =~= seq!['j', 'p', 'e', 'g']);
            lemma_filed_by(stem, ext, "jpeg"@);
        }
    }
    assert(stem[0] != '.' && spells_ignoring_case(ext, "gif"@) ==> category_of(stem + seq!['.'] + ext)
        == VaultStorageCategory::Images) by {
        reveal_strlit("mp3");
        reveal_strlit("wav");
        reveal_strlit("wave");
        reveal_strlit("pdf");
        reveal_strlit("json");
        reveal_strlit("md");
        reveal_strlit("markdown");
        reveal_strlit("png");
        reveal_strlit("jpg");
        reveal_strlit("jpeg");
        reveal_strlit("gif");
        reveal_strlit("webp");
        reveal_strlit("heic");
        reveal_strlit("heif");
        reveal_strlit("avif");
        reveal_strlit("svg");
        reveal_strlit("tif");
        reveal_strlit("tiff");
        reveal_strlit("bmp");
        reveal_strlit("ico");
        if stem[0] != '.' && spells_ignoring_case(ext, "gif"@) {
            assert("gif"@ =~= seq!['g', 'i', 'f']);
            lemma_filed_by(stem, ext, "gif"@);
        }
    }
    assert(stem[0] != '.' && spells_ignoring_case(ext, "webp"@) ==> category_of(stem + seq!['.'] + ext)
        == VaultStorageCategory::Images) by {
        reveal_strlit("mp3");
        reveal_strlit("wav");
        reveal_strlit("wave");
        reveal_strlit("pdf");
        reveal_strlit("json");
        reveal_strlit("md");
        reveal_strlit("markdown");
        reveal_strlit("png");
        reveal_strlit("jpg");
        reveal_strlit("jpeg");
        reveal_strlit("gif");
        reveal_strlit("webp");
        reveal_strlit("heic");
        reveal_strlit("heif");
        reveal_strlit("avif");
        reveal_strlit("svg");
        reveal_strlit("tif");
        reveal_strlit("tiff");
        reveal_strlit("bmp");
        reveal_strlit("ico");
        if stem[0] != '.' && spells_ignoring_case(ext, "webp"@) {
            assert("webp"@ =~= seq!['w', 'e', 'b', 'p']);
            lemma_filed_by(stem, ext, "webp"@);
        }
    }
    assert(stem[0] != '.' && spells_ignoring_case(ext, "heic"@) ==> category_of(stem + seq!['.'] + ext)
        == VaultStorageCategory::Images) by {
        reveal_strlit("mp3");
        reveal_strlit("wav");
        reveal_strlit("wave");
        reveal_strlit("pdf");
        reveal_strlit("json");
        reveal_strlit("md");
        reveal_strlit("markdown");
        reveal_strlit("png");
        reveal_strlit("jpg");
        reveal_strlit("jpeg");
        reveal_strlit("gif");
        reveal_strlit("webp");
        reveal_strlit("heic");
        reveal_strlit("heif");
        reveal_strlit("avif");
        reveal_strlit("svg");
        reveal_strlit("tif");
        reveal_strlit("tiff");
        reveal_strlit("bmp");
        reveal_strlit("ico");
        if stem[0] != '.' && spells_ignoring_case(ext, "heic"@) {
            assert("heic"@ =~= seq!['h', 'e', 'i', 'c']);
            lemma_filed_by(stem, ext, "heic"@);
        }
    }
    assert(stem[0] != '.' && spells_ignoring_case(ext, "heif"@) ==> category_of(stem + seq!['.'] + ext)
        == VaultStorageCategory::Images) by {
        reveal_strlit("mp3");
        reveal_strlit("wav");
        reveal_strlit("wave");
        reveal_strlit("pdf");
        reveal_strlit("json");
        reveal_strlit("md");
        reveal_strlit("markdown");
        reveal_strlit("png");
        reveal_strlit("jpg");
        reveal_strlit("jpeg");
        reveal_strlit("gif");
        reveal_strlit("webp");
        reveal_strlit("heic");
        reveal_strlit("heif");
        reveal_strlit("avif");
        reveal_strlit("svg");
        reveal_strlit("tif");
        reveal_strlit("tiff");
        reveal_strlit("bmp");
        reveal_strlit("ico");
        if stem[0] != '.' && spells_ignoring_case(ext, "heif"@) {
            assert("heif"@ =~= seq!['h', 'e', 'i', 'f']);
            lemma_filed_by(stem, ext, "heif"@);
        }
    }
    assert(stem[0] != '.' && spells_ignoring_case(ext, "avif"@) ==> category_of(stem + seq!['.'] + ext)
        == VaultStorageCategory::Images) by {
        reveal_strlit("mp3");
        reveal_strlit("wav");
        reveal_strlit("wave");
        reveal_strlit("pdf");
        reveal_strlit("json");
        reveal_strlit("md");
        reveal_strlit("markdown");
        reveal_strlit("png");
        reveal_strlit("jpg");
        reveal_strlit("jpeg");
        reveal_strlit("gif");
        reveal_strlit("webp");
        reveal_strlit("heic");
        reveal_strlit("heif");
        reveal_strlit("avif");
        reveal_strlit("svg");
        reveal_strlit("tif");
        reveal_strlit("tiff");
        reveal_strlit("bmp");
        reveal_strlit("ico");
        if stem[0] != '.' && spells_ignoring_case(ext, "avif"@) {
            assert("avif"@ =~= seq!['a', 'v', 'i', 'f']);
            lemma_filed_by(stem, ext, "avif"@);
        }
    }
    assert(stem[0] != '.' && spells_ignoring_case(ext, "svg"@) ==> category_of(stem + seq!['.'] + ext)
        == VaultStorageCategory::Images) by {
        reveal_strlit("mp3");
        reveal_strlit("wav");
        reveal_strlit("wave");
        reveal_strlit("pdf");
        reveal_strlit("json");
        reveal_strlit("md");
        reveal_strlit("markdown");
        reveal_strlit("png");
        reveal_strlit("jpg");
        reveal_strlit("jpeg");
        reveal_strlit("gif");
        reveal_strlit("webp");
        reveal_strlit("heic");
        reveal_strlit("heif");
        reveal_strlit("avif");
        reveal_strlit("svg");
        reveal_strlit("tif");
        reveal_strlit("tiff");
        reveal_strlit("bmp");
        reveal_strlit("ico");
        if stem[0] != '.' && spells_ignoring_case(ext, "svg"@) {
            assert("svg"@ =~= seq!['s', 'v', 'g']);
            lemma_filed_by(stem, ext, "svg"@);
        }
    }
    assert(stem[0] != '.' && spells_ignoring_case(ext, "tif"@) ==> category_of(stem + seq!['.'] + ext)
        == VaultStorageCategory::Images) by {
        reveal_strlit("mp3");
        reveal_strlit("wav");
        reveal_strlit("wave");
        reveal_strlit("pdf");
        reveal_strlit("json");
        reveal_strlit("md");
        reveal_strlit("markdown");
        reveal_strlit("png");
        reveal_strlit("jpg");
        reveal_strlit("jpeg");
        reveal_strlit("gif");
        reveal_strlit("webp");
        reveal_strlit("heic");
        reveal_strlit("heif");
        reveal_strlit("avif");
        reveal_strlit("svg");
        reveal_strlit("tif");
        reveal_strlit("tiff");
        reveal_strlit("bmp");
        reveal_strlit("ico");
        if stem[0] != '.' && spells_ignoring_case(ext, "tif"@) {
            assert("tif"@ =~= seq!['t', 'i', 'f']);
            lemma_filed_by(stem, ext, "tif"@);
        }
    }
    assert(stem[0] != '.' && spells_ignoring_case(ext, "tiff"@) ==> category_of(stem + seq!['.'] + ext)
        == VaultStorageCategory::Images) by {
        reveal_strlit("mp3");
        reveal_strlit("wav");
        reveal_strlit("wave");
        reveal_strlit("pdf");
        reveal_strlit("json");
        reveal_strlit("md");
        reveal_strlit("markdown");
        reveal_strlit("png");
        reveal_strlit("jpg");
        reveal_strlit("jpeg");
        reveal_strlit("gif");
        reveal_strlit("webp");
        reveal_strlit("heic");
        reveal_strlit("heif");
        reveal_strlit("avif");
        reveal_strlit("svg");
        reveal_strlit("tif");
        reveal_strlit("tiff");
        reveal_strlit("bmp");
        reveal_strlit("ico");
        if stem[0] != '.' && spells_ignoring_case(ext, "tiff"@) {
            assert("tiff"@ =~= seq!['t', 'i', 'f', 'f']);
            lemma_filed_by(stem, ext, "tiff"@);
        }
    }
    assert(stem[0] != '.' && spells_ignoring_case(ext, "bmp"@) ==> category_of(stem + seq!['.'] + ext)
        == VaultStorageCategory::Images) by {
        reveal_strlit("mp3");
        reveal_strlit("wav");
        reveal_strlit("wave");
        reveal_strlit("pdf");
        reveal_strlit("json");
        reveal_strlit("md");
        reveal_strlit("markdown");
        reveal_strlit("png");
        reveal_strlit("jpg");
        reveal_strlit("jpeg");
        reveal_strlit("gif");
        reveal_strlit("webp");
        reveal_strlit("heic");
        reveal_strlit("heif");
        reveal_strlit("avif");
        reveal_strlit("svg");
        reveal_strlit("tif");
        reveal_strlit("tiff");
        reveal_strlit("bmp");
        reveal_strlit("ico");
        if stem[0] != '.' && spells_ignoring_case(ext, "bmp"@) {
            assert("bmp"@ =~= seq!['b', 'm', 'p']);
            lemma_filed_by(stem, ext, "bmp"@);
        }
    }
    assert(stem[0] != '.' && spells_ignoring_case(ext, "ico"@) ==> category_of(stem + seq!['.'] + ext)
        == VaultStorageCategory::Images) by {
        reveal_strlit("mp3");
        reveal_strlit("wav");
        reveal_strlit("wave");
        reveal_strlit("pdf");
        reveal_strlit("json");
        reveal_strlit("md");
        reveal_strlit("markdown");
        reveal_strlit("png");
        reveal_strlit("jpg");
        reveal_strlit("jpeg");
        reveal_strlit("gif");
        reveal_strlit("webp");
        reveal_strlit("heic");
        reveal_strlit("heif");
        reveal_strlit("avif");
        reveal_strlit("svg");
        reveal_strlit("tif");
        reveal_strlit("tiff");
        reveal_strlit("bmp");
        reveal_strlit("ico");
        if stem[0] != '.' && spells_ignoring_case(ext, "ico"@) {
            assert("ico"@ =~= seq!['i', 'c', 'o']);
            lemma_filed_by(stem, ext, "ico"@);
        }
    }
}

} // verus!
