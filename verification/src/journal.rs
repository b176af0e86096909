//! The write journal: the hash of every file the store wrote, by
//! vault-relative path, so a filesystem event for a path can be told apart
//! from an edit by someone else (the file still holds what the store wrote).

use vstd::prelude::*;

use crate::digest::{hex_lower, sha256, sha256_hex};
use crate::keyed::{Keyed, as_map, get_value, insert_value, keys_unique, lemma_as_map, lemma_as_map_dom, remove_key};
use crate::strings::{concat, seq_starts_with, str_eq, str_starts_with, substring, to_owned_string};

verus! {

/// Hashes of the files the store wrote, by normalized relative path.
#[derive(Debug)]
pub struct WriteJournal {
    entries: Vec<Keyed<String>>,
}

/// Where a key moves when `old` is renamed to `new`: keys equal to `old` or
/// under `old/` keep their remainder under `new`; other keys do not move.
pub open spec fn moved_key(key: Seq<char>, old: Seq<char>, new: Seq<char>) -> Option<Seq<char>> {
    if seq_starts_with(key, old) {
        let rest = key.subrange(old.len() as int, key.len() as int);
        if rest.len() == 0 || rest[0] == '/' {
            Some(new + rest)
        } else {
            None
        }
    } else {
        None
    }
}

/// The moves of a remap, in journal order.
pub open spec fn moves(entries: Seq<Keyed<String>>, old: Seq<char>, new: Seq<char>) -> Seq<(Seq<char>, Seq<char>)>
    decreases entries.len(),
{
    if entries.len() == 0 {
        Seq::empty()
    } else {
        moves(entries.drop_last(), old, new) + match moved_key(entries.last().key@, old, new) {
            Some(k) => seq![(entries.last().key@, k)],
            None => Seq::empty(),
        }
    }
}

/// The journal after carrying out moves in order: each moves its hash, if its
/// source still holds one, to its destination.
pub open spec fn apply_moves(m: Map<Seq<char>, String>, mv: Seq<(Seq<char>, Seq<char>)>) -> Map<Seq<char>, String>
    decreases mv.len(),
{
    if mv.len() == 0 {
        m
    } else {
        let (from, to) = mv[0];
        let next = if m.dom().contains(from) { m.remove(from).insert(to, m[from]) } else { m };
        apply_moves(next, mv.drop_first())
    }
}

pub open spec fn bytes_view(b: Option<&[u8]>) -> Option<Seq<u8>> {
    match b {
        Some(bytes) => Some(bytes@),
        None => None,
    }
}

/// A file holds what the store last wrote at its path: it can be read, and
/// its bytes hash to the recorded hash.
pub open spec fn holds_own_write(m: Map<Seq<char>, String>, relative: Seq<char>, current: Option<Seq<u8>>) -> bool {
    match current {
        Some(bytes) => m.dom().contains(relative) && m[relative]@ == hex_lower(sha256(bytes)),
        None => false,
    }
}

/// The store recognises its own writes: once the hash of the bytes it wrote
/// at a path is recorded, a file holding exactly those bytes there matches,
/// and an unreadable one never does.
pub proof fn lemma_recorded_write_matches(
    before: Map<Seq<char>, String>,
    after: Map<Seq<char>, String>,
    relative: Seq<char>,
    bytes: Seq<u8>,
)
    requires
        after.dom() == before.dom().insert(relative),
        after[relative]@ == hex_lower(sha256(bytes)),
    ensures
        holds_own_write(after, relative, Some(bytes)),
        !holds_own_write(after, relative, None),
{
}

impl WriteJournal {
    /// The journal as a map from path to hash.
    pub closed spec fn view_map(&self) -> Map<Seq<char>, String> {
        as_map(self.entries@)
    }

    pub closed spec fn wf(&self) -> bool {
        keys_unique(self.entries@)
    }

    /// The order in which entries are remapped.
    pub closed spec fn entry_seq(&self) -> Seq<Keyed<String>> {
        self.entries@
    }

    /// An empty journal.
    pub fn new() -> (r: Self)
        ensures
            r.wf(),
            r.view_map() == Map::<Seq<char>, String>::empty(),
    {
        WriteJournal { entries: Vec::new() }
    }

    /// Records the hash of a file the store just wrote.
    pub fn record(&mut self, relative: &str, hash: &str)
        requires
            old(self).wf(),
        ensures
            final(self).wf(),
            final(self).view_map().dom() == old(self).view_map().dom().insert(relative@),
            final(self).view_map()[relative@]@ == hash@,
            final(self).view_map().remove(relative@) == old(self).view_map().remove(relative@),
    {
        let ghost before = as_map(self.entries@);
        insert_value(&mut self.entries, to_owned_string(relative), to_owned_string(hash));
        proof {
            assert(as_map(self.entries@).dom() =~= before.dom().insert(relative@));
            assert(as_map(self.entries@).remove(relative@) =~= before.remove(relative@));
        }
    }

    /// How many paths the journal holds.
    pub fn len(&self) -> (r: usize)
        requires
            self.wf(),
        ensures
            r == self.view_map().dom().len(),
    {
        proof {
            lemma_as_map(self.entries@);
        }
        self.entries.len()
    }

    /// The hash recorded for a path.
    pub fn hash_of(&self, relative: &str) -> (r: Option<String>)
        requires
            self.wf(),
        ensures
            r is Some <==> self.view_map().dom().contains(relative@),
            r matches Some(h) ==> h@ == self.view_map()[relative@]@,
    {
        match get_value(&self.entries, relative) {
            Some(h) => Some(h.clone()),
            None => None,
        }
    }

    /// Whether the file at a path still holds what the store wrote there:
    /// its current bytes (`None` when it cannot be read) hash to the recorded
    /// hash.
    pub fn matches_current_file(&self, relative: &str, current: Option<&[u8]>) -> (r: bool)
        requires
            self.wf(),
        ensures
            r == holds_own_write(self.view_map(), relative@, bytes_view(current)),
    {
        match current {
            Some(bytes) => match get_value(&self.entries, relative) {
                Some(stored) => {
                    let hash = sha256_hex(bytes);
                    str_eq(stored.as_str(), hash.as_str())
                },
                None => false,
            },
            None => false,
        }
    }

    /// Re-homes every entry under a renamed directory: keys equal to the old
    /// prefix or under it move to the new prefix with the same remainder, so
    /// late events for the new paths still match, and no moved entry keeps
    /// claiming its old path.
    pub fn remap_prefix(&mut self, old_prefix: &str, new_prefix: &str)
        requires
            old(self).wf(),
        ensures
            final(self).wf(),
            final(self).view_map() == apply_moves(old(self).view_map(), moves(old(self).entry_seq(), old_prefix@, new_prefix@)),
            prefixes_apart(old_prefix@, new_prefix@) ==> remapped(old(self).view_map(), final(self).view_map(), old_prefix@,
                new_prefix@),
    {
        let ghost all = self.entries@;
        proof {
            if prefixes_apart(old_prefix@, new_prefix@) {
                lemma_remap_apart(all, old_prefix@, new_prefix@);
            }
        }
        let mut planned: Vec<(String, String)> = Vec::new();
        let mut i: usize = 0;
        while i < self.entries.len()
            invariant
                i <= self.entries.len(),
                all == self.entries@,
                planned@.map_values(|p: (String, String)| (p.0@, p.1@)) == moves(all.subrange(0, i as int), old_prefix@, new_prefix@),
            decreases self.entries.len() - i,
        {
            proof {
                assert(all.subrange(0, i + 1).drop_last() =~= all.subrange(0, i as int));
            }
            let key = &self.entries[i].key;
            let ghost before = planned@.map_values(|p: (String, String)| (p.0@, p.1@));
            if str_starts_with(key.as_str(), old_prefix) {
                let n = key.unicode_len();
                let m = old_prefix.unicode_len();
                let rest = substring(key.as_str(), m, n);
                if rest.unicode_len() == 0 || rest.as_str().get_char(0) == '/' {
                    let target = concat(new_prefix, rest.as_str());
                    planned.push((key.clone(), target));
                    proof {
                        assert(planned@.map_values(|p: (String, String)| (p.0@, p.1@)) =~= before.push((key@, new_prefix@ + rest@)));
                    }
                }
            }
            proof {
                assert(all[i as int].key == *key);
                assert(planned@.map_values(|p: (String, String)| (p.0@, p.1@)) =~= moves(all.subrange(0, i + 1), old_prefix@, new_prefix@));
            }
            i = i + 1;
        }
        proof {
            assert(all.subrange(0, all.len() as int) =~= all);
        }
        let ghost mv = planned@.map_values(|p: (String, String)| (p.0@, p.1@));
        let ghost m0 = as_map(self.entries@);
        proof {
            assert(mv.subrange(0, mv.len() as int) =~= mv);
        }
        let mut k: usize = 0;
        while k < planned.len()
            invariant
                k <= planned.len(),
                mv == planned@.map_values(|p: (String, String)| (p.0@, p.1@)),
                keys_unique(self.entries@),
                apply_moves(m0, mv) == apply_moves(as_map(self.entries@), mv.subrange(k as int, mv.len() as int)),
            decreases planned.len() - k,
        {
            let ghost cur = as_map(self.entries@);
            let ghost rest = mv.subrange(k as int, mv.len() as int);
            proof {
                assert(rest[0] == (planned@[k as int].0@, planned@[k as int].1@));
                assert(rest.drop_first() =~= mv.subrange(k + 1, mv.len() as int));
            }
            let from = &planned[k].0;
            let to = &planned[k].1;
            match remove_key(&mut self.entries, from.as_str()) {
                Some(hash) => {
                    insert_value(&mut self.entries, to.clone(), hash);
                },
                None => {},
            }
            proof {
                let (f, t) = rest[0];
                let next = if cur.dom().contains(f) { cur.remove(f).insert(t, cur[f]) } else { cur };
                assert(as_map(self.entries@) == next);
                assert(apply_moves(cur, rest) == apply_moves(next, rest.drop_first()));
            }
            k = k + 1;
        }
        proof {
            assert(mv.subrange(mv.len() as int, mv.len() as int) =~= Seq::<(Seq<char>, Seq<char>)>::empty());
        }
    }
}


/// What an overwrite finds at its destination.
pub enum ExistingFile {
    Missing,
    /// Present but unreadable: its bytes cannot be compared, so they are kept.
    Unreadable,
    Bytes(Vec<u8>),
}

/// Whether an overwrite must first back the existing bytes up to the trash:
/// bytes the store itself wrote there last (the journal matches), a missing
/// file, and bytes identical to the new ones lose nothing; anything else —
/// an external edit, a file from before this process, an unreadable file —
/// is kept.
pub fn needs_backup(journal_matches: bool, existing: &ExistingFile, next: &[u8]) -> (r: bool)
    ensures
        r == (!journal_matches && match existing {
            ExistingFile::Missing => false,
            ExistingFile::Unreadable => true,
            ExistingFile::Bytes(b) => b@ != next@,
        }),
{
    if journal_matches {
        return false;
    }
    match existing {
        ExistingFile::Missing => false,
        ExistingFile::Unreadable => true,
        ExistingFile::Bytes(b) => {
            if b.len() != next.len() {
                proof {
                    assert(b@.len() != next@.len());
                }
                return true;
            }
            let mut i: usize = 0;
            while i < b.len()
                invariant
                    i <= b.len(),
                    !journal_matches,
                    *existing == ExistingFile::Bytes(*b),
                    b@.len() == next@.len(),
                    forall|j: int| 0 <= j < i ==> b@[j] == next@[j],
                decreases b.len() - i,
            {
                if b[i] != next[i] {
                    proof {
                        assert(b@[i as int] != next@[i as int]);
                        assert(b@ != next@);
                    }
                    return true;
                }
                i = i + 1;
            }
            proof {
                assert(b@ =~= next@);
            }
            false
        },
    }
}


proof fn lemma_apply_self_moves(m: Map<Seq<char>, String>, mv: Seq<(Seq<char>, Seq<char>)>)
    requires
        forall|i: int| 0 <= i < mv.len() ==> (#[trigger] mv[i]).0 == mv[i].1,
    ensures
        apply_moves(m, mv) == m,
    decreases mv.len(),
{
    if mv.len() > 0 {
        let (from, to) = mv[0];
        if m.dom().contains(from) {
            assert(m.remove(from).insert(to, m[from]) =~= m);
        }
        assert forall|i: int| 0 <= i < mv.drop_first().len() implies (#[trigger] mv.drop_first()[i]).0 == mv.drop_first()[i].1 by {
            assert(mv.drop_first()[i] == mv[i + 1]);
        }
        lemma_apply_self_moves(m, mv.drop_first());
    }
}

proof fn lemma_moves_to_self(entries: Seq<Keyed<String>>, p: Seq<char>)
    ensures
        forall|i: int| 0 <= i < moves(entries, p, p).len() ==> (#[trigger] moves(entries, p, p)[i]).0 == moves(entries, p, p)[i].1,
    decreases entries.len(),
{
    if entries.len() > 0 {
        lemma_moves_to_self(entries.drop_last(), p);
        let k = entries.last().key@;
        if seq_starts_with(k, p) {
            let rest = k.subrange(p.len() as int, k.len() as int);
            assert(p + rest =~= k);
        }
        let prev = moves(entries.drop_last(), p, p);
        let all = moves(entries, p, p);
        assert forall|i: int| 0 <= i < all.len() implies (#[trigger] all[i]).0 == all[i].1 by {
            if i < prev.len() {
                assert(all[i] == prev[i]);
            }
        }
    }
}

/// The remap order holds each recorded path once, and reading it in order
/// gives the journal's map.
pub proof fn lemma_entry_order(journal: &WriteJournal)
    requires
        journal.wf(),
    ensures
        keys_unique(journal.entry_seq()),
        journal.view_map() == as_map(journal.entry_seq()),
{
}

/// Renaming a directory onto itself leaves the journal as it was.
pub proof fn lemma_remap_to_same_prefix(journal: WriteJournal, prefix: Seq<char>)
    ensures
        apply_moves(journal.view_map(), moves(journal.entry_seq(), prefix, prefix)) == journal.view_map(),
{
    lemma_moves_to_self(journal.entry_seq(), prefix);
    lemma_apply_self_moves(journal.view_map(), moves(journal.entry_seq(), prefix, prefix));
}

/// `path` is `dir` itself or lies under `dir/`.
pub open spec fn within(path: Seq<char>, dir: Seq<char>) -> bool {
    seq_starts_with(path, dir) && (path.len() == dir.len() || path[dir.len() as int] == '/')
}

/// Neither directory is the other or lies under it, so no renamed key is
/// renamed again.
pub open spec fn prefixes_apart(old: Seq<char>, new: Seq<char>) -> bool {
    !within(new, old) && !within(old, new)
}

/// What renaming `old` to `new` does to a journal, key by key: every moved
/// key's hash now sits at its new key, no key under the old prefix remains,
/// and every other key keeps its hash.
pub open spec fn remapped(
    before: Map<Seq<char>, String>,
    after: Map<Seq<char>, String>,
    old: Seq<char>,
    new: Seq<char>,
) -> bool {
    &&& forall|k: Seq<char>| #[trigger] before.dom().contains(k) && moved_key(k, old, new) is Some ==> {
        let d = moved_key(k, old, new).unwrap();
        after.dom().contains(d) && after[d] == before[k]
    }
    &&& forall|k: Seq<char>| #[trigger] moved_key(k, old, new) is Some ==> !after.dom().contains(k)
    &&& forall|k: Seq<char>| moved_key(k, old, new) is None && !(exists|j: Seq<char>| before.dom().contains(j)
        && moved_key(j, old, new) == Some(k)) ==> (#[trigger] after.dom().contains(k) == before.dom().contains(k)
        && (before.dom().contains(k) ==> after[k] == before[k]))
}

proof fn lemma_target_not_source(k: Seq<char>, old: Seq<char>, new: Seq<char>)
    requires
        prefixes_apart(old, new),
        moved_key(k, old, new) is Some,
    ensures
        moved_key(moved_key(k, old, new).unwrap(), old, new) is None,
{
    let rest = k.subrange(old.len() as int, k.len() as int);
    let d = new + rest;
    assert(moved_key(k, old, new) == Some(d));
    if moved_key(d, old, new) is Some {
        let tail = d.subrange(old.len() as int, d.len() as int);
        assert(seq_starts_with(d, old));
        assert(tail.len() == 0 || tail[0] == '/');
        if old.len() <= new.len() {
            assert(new.subrange(0, old.len() as int) =~= d.subrange(0, old.len() as int));
            if new.len() > old.len() {
                assert(tail[0] == d[old.len() as int]);
                assert(d[old.len() as int] == new[old.len() as int]);
            }
            assert(within(new, old));
        } else {
            assert(old.subrange(0, new.len() as int) =~= d.subrange(0, new.len() as int));
            assert(d.subrange(0, new.len() as int) =~= new);
            assert(rest.len() > 0);
            assert(d[new.len() as int] == rest[0]);
            assert(old[new.len() as int] == d[new.len() as int]);
            assert(within(old, new));
        }
    }
}

proof fn lemma_target_injective(a: Seq<char>, b: Seq<char>, old: Seq<char>, new: Seq<char>)
    requires
        moved_key(a, old, new) is Some,
        moved_key(a, old, new) == moved_key(b, old, new),
    ensures
        a == b,
{
    let ra = a.subrange(old.len() as int, a.len() as int);
    let rb = b.subrange(old.len() as int, b.len() as int);
    assert(new + ra == new + rb);
    assert(ra =~= (new + ra).subrange(new.len() as int, (new + ra).len() as int));
    assert(rb =~= (new + rb).subrange(new.len() as int, (new + rb).len() as int));
    assert(a =~= old + ra);
    assert(b =~= old + rb);
}

proof fn lemma_moves_valid(entries: Seq<Keyed<String>>, old: Seq<char>, new: Seq<char>)
    ensures
        forall|i: int| #![trigger moves(entries, old, new)[i]] 0 <= i < moves(entries, old, new).len() ==> moved_key(
            moves(entries, old, new)[i].0,
            old,
            new,
        ) == Some(moves(entries, old, new)[i].1) && as_map(entries).dom().contains(moves(entries, old, new)[i].0),
    decreases entries.len(),
{
    if entries.len() > 0 {
        let p = entries.drop_last();
        lemma_moves_valid(p, old, new);
        let pm = moves(p, old, new);
        let mv = moves(entries, old, new);
        let last = entries.last();
        assert(as_map(entries) == as_map(p).insert(last.key@, last.value));
        match moved_key(last.key@, old, new) {
            Some(t) => {
                assert(mv == pm + seq![(last.key@, t)]);
                assert forall|i: int| #![trigger mv[i]] 0 <= i < mv.len() implies moved_key(mv[i].0, old, new) == Some(mv[i].1)
                    && as_map(entries).dom().contains(mv[i].0) by {
                    if i < pm.len() {
                        assert(mv[i] == pm[i]);
                    }
                }
            },
            None => {
                assert(mv =~= pm);
            },
        }
    }
}

proof fn lemma_moves_distinct(entries: Seq<Keyed<String>>, old: Seq<char>, new: Seq<char>)
    requires
        keys_unique(entries),
    ensures
        forall|i: int, j: int| 0 <= i < j < moves(entries, old, new).len() ==> #[trigger] moves(entries, old, new)[i].0
            != #[trigger] moves(entries, old, new)[j].0,
    decreases entries.len(),
{
    if entries.len() > 0 {
        let p = entries.drop_last();
        assert(keys_unique(p));
        lemma_moves_distinct(p, old, new);
        lemma_moves_valid(p, old, new);
        let pm = moves(p, old, new);
        let mv = moves(entries, old, new);
        let last = entries.last();
        match moved_key(last.key@, old, new) {
            Some(t) => {
                assert(mv == pm + seq![(last.key@, t)]);
                lemma_as_map_dom(p, last.key@);
                if as_map(p).dom().contains(last.key@) {
                    let j = choose|j: int| 0 <= j < p.len() && p[j].key@ == last.key@;
                    assert(entries[j] == p[j]);
                    assert(entries[entries.len() - 1] == last);
                }
                assert forall|i: int, j: int| 0 <= i < j < mv.len() implies #[trigger] mv[i].0 != #[trigger] mv[j].0 by {
                    assert(mv[i] == pm[i]);
                    if j < pm.len() {
                        assert(mv[j] == pm[j]);
                    }
                }
            },
            None => {
                assert(mv =~= pm);
            },
        }
    }
}

proof fn lemma_moves_complete(entries: Seq<Keyed<String>>, old: Seq<char>, new: Seq<char>)
    ensures
        forall|k: Seq<char>| #[trigger] as_map(entries).dom().contains(k) && moved_key(k, old, new) is Some ==> exists|i: int|
            0 <= i < moves(entries, old, new).len() && moves(entries, old, new)[i].0 == k,
    decreases entries.len(),
{
    if entries.len() > 0 {
        let p = entries.drop_last();
        lemma_moves_complete(p, old, new);
        let pm = moves(p, old, new);
        let mv = moves(entries, old, new);
        let last = entries.last();
        assert(as_map(entries) == as_map(p).insert(last.key@, last.value));
        assert forall|k: Seq<char>| #[trigger] as_map(entries).dom().contains(k) && moved_key(k, old, new) is Some implies exists|i: int|
            0 <= i < mv.len() && mv[i].0 == k by {
            match moved_key(last.key@, old, new) {
                Some(t) => {
                    assert(mv == pm + seq![(last.key@, t)]);
                    if k == last.key@ {
                        assert(mv[pm.len() as int].0 == k);
                    } else {
                        let i = choose|i: int| 0 <= i < pm.len() && pm[i].0 == k;
                        assert(mv[i] == pm[i]);
                    }
                },
                None => {
                    assert(mv =~= pm);
                },
            }
        }
    }
}

proof fn lemma_apply_apart(m: Map<Seq<char>, String>, mv: Seq<(Seq<char>, Seq<char>)>, old: Seq<char>, new: Seq<char>)
    requires
        prefixes_apart(old, new),
        forall|i: int| 0 <= i < mv.len() ==> moved_key(#[trigger] mv[i].0, old, new) == Some(mv[i].1),
        forall|i: int, j: int| 0 <= i < j < mv.len() ==> #[trigger] mv[i].0 != #[trigger] mv[j].0,
    ensures
        forall|i: int| 0 <= i < mv.len() && m.dom().contains(#[trigger] mv[i].0) ==> apply_moves(m, mv).dom().contains(
            mv[i].1,
        ) && apply_moves(m, mv)[mv[i].1] == m[mv[i].0],
        forall|i: int| 0 <= i < mv.len() ==> !apply_moves(m, mv).dom().contains(#[trigger] mv[i].0),
        forall|k: Seq<char>|
            (forall|i: int| 0 <= i < mv.len() ==> #[trigger] mv[i].0 != k && (mv[i].1 == k ==> !m.dom().contains(mv[i].0)))
                ==> (#[trigger] apply_moves(m, mv).dom().contains(k) == m.dom().contains(k) && (m.dom().contains(k)
                ==> apply_moves(m, mv)[k] == m[k])),
    decreases mv.len(),
{
    if mv.len() > 0 {
        let (f, t) = mv[0];
        let m1 = if m.dom().contains(f) { m.remove(f).insert(t, m[f]) } else { m };
        let rest = mv.drop_first();
        assert(apply_moves(m, mv) == apply_moves(m1, rest));
        lemma_target_not_source(f, old, new);
        assert forall|i: int| 0 <= i < rest.len() implies moved_key(#[trigger] rest[i].0, old, new) == Some(rest[i].1) by {
            assert(rest[i] == mv[i + 1]);
        }
        assert forall|i: int, j: int| 0 <= i < j < rest.len() implies #[trigger] rest[i].0 != #[trigger] rest[j].0 by {
            assert(rest[i] == mv[i + 1] && rest[j] == mv[j + 1]);
        }
        lemma_apply_apart(m1, rest, old, new);
        let r = apply_moves(m, mv);
        // facts about the rest's moves relative to f and t
        assert forall|i: int| 0 <= i < rest.len() implies #[trigger] rest[i].0 != f && rest[i].0 != t && rest[i].1 != t
            && rest[i].1 != f by {
            assert(rest[i] == mv[i + 1]);
            assert(mv[0].0 != mv[i + 1].0);
            lemma_target_not_source(rest[i].0, old, new);
            if rest[i].1 == t {
                lemma_target_injective(rest[i].0, f, old, new);
            }
        }
        assert forall|i: int| 0 <= i < mv.len() && m.dom().contains(#[trigger] mv[i].0) implies r.dom().contains(mv[i].1)
            && r[mv[i].1] == m[mv[i].0] by {
            if i == 0 {
                assert(forall|q: int| 0 <= q < rest.len() ==> #[trigger] rest[q].0 != t && (rest[q].1 == t ==> !m1.dom().contains(rest[q].0)));
            } else {
                assert(mv[i] == rest[i - 1]);
                assert(m1.dom().contains(rest[i - 1].0));
                assert(m1[rest[i - 1].0] == m[mv[i].0]);
            }
        }
        assert forall|i: int| 0 <= i < mv.len() implies !r.dom().contains(#[trigger] mv[i].0) by {
            if i == 0 {
                assert(f != t);
                assert(!m1.dom().contains(f));
                assert(forall|q: int| 0 <= q < rest.len() ==> #[trigger] rest[q].0 != f && (rest[q].1 == f ==> !m1.dom().contains(rest[q].0)));
            } else {
                assert(mv[i] == rest[i - 1]);
            }
        }
        assert forall|k: Seq<char>|
            (forall|i: int| 0 <= i < mv.len() ==> #[trigger] mv[i].0 != k && (mv[i].1 == k ==> !m.dom().contains(mv[i].0)))
            implies (#[trigger] r.dom().contains(k) == m.dom().contains(k) && (m.dom().contains(k) ==> r[k] == m[k])) by {
            assert(mv[0].0 != k && (mv[0].1 == k ==> !m.dom().contains(mv[0].0)));
            assert(m1.dom().contains(k) == m.dom().contains(k) && (m.dom().contains(k) ==> m1[k] == m[k]));
            assert forall|q: int| 0 <= q < rest.len() implies #[trigger] rest[q].0 != k && (rest[q].1 == k ==> !m1.dom().contains(rest[q].0)) by {
                assert(rest[q] == mv[q + 1]);
            }
        }
    }
}

proof fn lemma_remap_apart(entries: Seq<Keyed<String>>, old: Seq<char>, new: Seq<char>)
    requires
        keys_unique(entries),
        prefixes_apart(old, new),
    ensures
        remapped(as_map(entries), apply_moves(as_map(entries), moves(entries, old, new)), old, new),
{
    let m = as_map(entries);
    let mv = moves(entries, old, new);
    let r = apply_moves(m, mv);
    lemma_moves_valid(entries, old, new);
    lemma_moves_distinct(entries, old, new);
    lemma_moves_complete(entries, old, new);
    lemma_apply_apart(m, mv, old, new);
    assert forall|k: Seq<char>| #[trigger] m.dom().contains(k) && moved_key(k, old, new) is Some implies ({
        let d = moved_key(k, old, new).unwrap();
        r.dom().contains(d) && r[d] == m[k]
    }) by {
        let i = choose|i: int| 0 <= i < mv.len() && mv[i].0 == k;
        assert(moved_key(mv[i].0, old, new) == Some(mv[i].1));
    }
    assert forall|k: Seq<char>| #[trigger] moved_key(k, old, new) is Some implies !r.dom().contains(k) by {
        if m.dom().contains(k) {
            let i = choose|i: int| 0 <= i < mv.len() && mv[i].0 == k;
            assert(!r.dom().contains(mv[i].0));
        } else {
            assert forall|i: int| 0 <= i < mv.len() implies #[trigger] mv[i].0 != k && (mv[i].1 == k ==> !m.dom().contains(mv[i].0)) by {
                if mv[i].1 == k {
                    lemma_target_not_source(mv[i].0, old, new);
                }
            }
        }
    }
    assert forall|k: Seq<char>| moved_key(k, old, new) is None && !(exists|j: Seq<char>| m.dom().contains(j)
        && moved_key(j, old, new) == Some(k)) implies (#[trigger] r.dom().contains(k) == m.dom().contains(k)
        && (m.dom().contains(k) ==> r[k] == m[k])) by {
        assert forall|i: int| 0 <= i < mv.len() implies #[trigger] mv[i].0 != k && (mv[i].1 == k ==> !m.dom().contains(mv[i].0)) by {
            if mv[i].1 == k && m.dom().contains(mv[i].0) {
                assert(moved_key(mv[i].0, old, new) == Some(k));
            }
        }
    }
}

} // verus!
