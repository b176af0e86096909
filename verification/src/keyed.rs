//! String-keyed maps held as vectors of entries with distinct keys, viewed as
//! `Map<Seq<char>, V>`.

use vstd::prelude::*;

use crate::strings::str_eq;

verus! {

/// One entry of a string-keyed map.
#[derive(Debug)]
pub struct Keyed<V> {
    pub key: String,
    pub value: V,
}

/// No two entries share a key.
pub open spec fn keys_unique<V>(s: Seq<Keyed<V>>) -> bool {
    forall|i: int, j: int| 0 <= i < j < s.len() ==> s[i].key@ != s[j].key@
}

/// The map the entries stand for.
pub open spec fn as_map<V>(s: Seq<Keyed<V>>) -> Map<Seq<char>, V>
    decreases s.len(),
{
    if s.len() == 0 {
        Map::empty()
    } else {
        as_map(s.drop_last()).insert(s.last().key@, s.last().value)
    }
}

/// Every entry is in the map under its key, and nothing else is.
pub proof fn lemma_as_map<V>(s: Seq<Keyed<V>>)
    requires
        keys_unique(s),
    ensures
        forall|k: Seq<char>| #[trigger]
            as_map(s).dom().contains(k) <==> exists|i: int| 0 <= i < s.len() && s[i].key@ == k,
        forall|i: int| 0 <= i < s.len() ==> #[trigger] as_map(s)[s[i].key@] == s[i].value,
        as_map(s).dom().finite(),
        as_map(s).dom().len() == s.len(),
    decreases s.len(),
{
    if s.len() > 0 {
        let p = s.drop_last();
        assert(keys_unique(p));
        lemma_as_map(p);
        assert forall|k: Seq<char>| #[trigger]
            as_map(s).dom().contains(k) <==> exists|i: int| 0 <= i < s.len() && s[i].key@ == k by {
            if as_map(s).dom().contains(k) && k != s.last().key@ {
                let i = choose|i: int| 0 <= i < p.len() && p[i].key@ == k;
                assert(s[i].key@ == k);
            }
            if exists|i: int| 0 <= i < s.len() && s[i].key@ == k {
                let i = choose|i: int| 0 <= i < s.len() && s[i].key@ == k;
                if i < s.len() - 1 {
                    assert(p[i].key@ == k);
                }
            }
        }
        assert forall|i: int| 0 <= i < s.len() implies #[trigger] as_map(s)[s[i].key@]
            == s[i].value by {
            if i < s.len() - 1 {
                assert(p[i] == s[i]);
                assert(s[i].key@ != s.last().key@);
            }
        }
        assert(!as_map(p).dom().contains(s.last().key@)) by {
            if as_map(p).dom().contains(s.last().key@) {
                let i = choose|i: int| 0 <= i < p.len() && p[i].key@ == s.last().key@;
                assert(s[i].key@ == s[s.len() - 1].key@);
            }
        }
    }
}

/// Position of the entry with this key.
pub fn find_key<V>(entries: &Vec<Keyed<V>>, key: &str) -> (r: Option<usize>)
    requires
        keys_unique(entries@),
    ensures
        r matches Some(i) ==> i < entries@.len() && entries@[i as int].key@ == key@,
        r is None ==> !as_map(entries@).dom().contains(key@),
        r is None <==> !as_map(entries@).dom().contains(key@),
{
    proof {
        lemma_as_map(entries@);
    }
    let mut i: usize = 0;
    while i < entries.len()
        invariant
            i <= entries.len(),
            keys_unique(entries@),
            forall|j: int| 0 <= j < i ==> entries@[j].key@ != key@,
        decreases entries.len() - i,
    {
        if str_eq(entries[i].key.as_str(), key) {
            assert(as_map(entries@).dom().contains(key@)) by {
                lemma_as_map(entries@);
                assert(entries@[i as int].key@ == key@);
            }
            return Some(i);
        }
        i = i + 1;
    }
    None
}

/// The value stored under `key`.
pub fn get_value<'a, V>(entries: &'a Vec<Keyed<V>>, key: &str) -> (r: Option<&'a V>)
    requires
        keys_unique(entries@),
    ensures
        r matches Some(v) ==> as_map(entries@).dom().contains(key@) && *v == as_map(
            entries@,
        )[key@],
        r is None <==> !as_map(entries@).dom().contains(key@),
{
    proof {
        lemma_as_map(entries@);
    }
    match find_key(entries, key) {
        Some(i) => Some(&entries[i].value),
        None => None,
    }
}

/// Stores `value` under `key`, replacing any previous value; returns the
/// previous value.
pub fn insert_value<V>(entries: &mut Vec<Keyed<V>>, key: String, value: V) -> (old_value: Option<V>)
    requires
        keys_unique(old(entries)@),
    ensures
        keys_unique(final(entries)@),
        as_map(final(entries)@) == as_map(old(entries)@).insert(key@, value),
        old_value matches Some(v) ==> as_map(old(entries)@).dom().contains(key@) && v == as_map(
            old(entries)@,
        )[key@],
        old_value is None <==> !as_map(old(entries)@).dom().contains(key@),
{
    proof {
        lemma_as_map(entries@);
    }
    match find_key(entries, key.as_str()) {
        Some(i) => {
            let ghost before = entries@;
            let entry = Keyed { key, value };
            let ghost eg = entry;
            let replaced = entries.remove(i);
            entries.insert(i, entry);
            let ghost after = entries@;
            proof {
                assert(after =~= before.update(i as int, eg));
                assert(keys_unique(after)) by {
                    assert forall|a: int, b: int| 0 <= a < b < after.len() implies after[a].key@
                        != after[b].key@ by {
                        if a != i && b != i {
                            assert(after[a] == before[a]);
                            assert(after[b] == before[b]);
                        } else if a == i {
                            assert(after[b] == before[b]);
                        } else {
                            assert(after[a] == before[a]);
                        }
                    }
                }
                lemma_as_map(after);
                assert(as_map(after) =~= as_map(before).insert(eg.key@, eg.value)) by {
                    assert forall|k: Seq<char>| #[trigger] as_map(after).dom().contains(k) <==> as_map(before).insert(eg.key@, eg.value).dom().contains(k) by {
                        if as_map(after).dom().contains(k) {
                            let j = choose|j: int| 0 <= j < after.len() && after[j].key@ == k;
                            if j != i {
                                assert(after[j] == before[j]);
                            }
                        }
                        if as_map(before).dom().contains(k) {
                            let j = choose|j: int| 0 <= j < before.len() && before[j].key@ == k;
                            if j != i {
                                assert(after[j] == before[j]);
                            } else {
                                assert(after[i as int].key@ == k);
                            }
                        }
                    }
                    assert forall|k: Seq<char>| #[trigger] as_map(after).dom().contains(k) implies as_map(after)[k] == as_map(before).insert(eg.key@, eg.value)[k] by {
                        let j = choose|j: int| 0 <= j < after.len() && after[j].key@ == k;
                        if j != i {
                            assert(after[j] == before[j]);
                        }
                    }
                }
            }
            Some(replaced.value)
        },
        None => {
            let ghost before = entries@;
            entries.push(Keyed { key, value });
            proof {
                let after = entries@;
                assert(after.drop_last() =~= before);
                assert(keys_unique(after)) by {
                    assert forall|a: int, b: int| 0 <= a < b < after.len() implies after[a].key@
                        != after[b].key@ by {
                        if b == after.len() - 1 {
                            assert(after[a] == before[a]);
                        } else {
                            assert(after[a] == before[a]);
                            assert(after[b] == before[b]);
                        }
                    }
                }
            }
            None
        },
    }
}

/// Removes the entry under `key`, returning its value.
pub fn remove_key<V>(entries: &mut Vec<Keyed<V>>, key: &str) -> (removed: Option<V>)
    requires
        keys_unique(old(entries)@),
    ensures
        keys_unique(final(entries)@),
        as_map(final(entries)@) == as_map(old(entries)@).remove(key@),
        removed matches Some(v) ==> as_map(old(entries)@).dom().contains(key@) && v == as_map(
            old(entries)@,
        )[key@],
        removed is None <==> !as_map(old(entries)@).dom().contains(key@),
{
    proof {
        lemma_as_map(entries@);
    }
    match find_key(entries, key) {
        Some(i) => {
            let ghost before = entries@;
            let e = entries.remove(i);
            proof {
                let after = entries@;
                assert(after == before.remove(i as int));
                assert(keys_unique(after)) by {
                    assert forall|a: int, b: int| 0 <= a < b < after.len() implies after[a].key@
                        != after[b].key@ by {
                        let a0 = if a < i { a } else { a + 1 };
                        let b0 = if b < i { b } else { b + 1 };
                        assert(after[a] == before[a0]);
                        assert(after[b] == before[b0]);
                    }
                }
                lemma_as_map(after);
                assert(as_map(after) =~= as_map(before).remove(key@)) by {
                    assert forall|k: Seq<char>| #[trigger] as_map(after).dom().contains(k) <==> as_map(before).remove(key@).dom().contains(k) by {
                        if as_map(after).dom().contains(k) {
                            let j = choose|j: int| 0 <= j < after.len() && after[j].key@ == k;
                            let j0 = if j < i { j } else { j + 1 };
                            assert(after[j] == before[j0]);
                        }
                        if as_map(before).dom().contains(k) && k != key@ {
                            let j = choose|j: int| 0 <= j < before.len() && before[j].key@ == k;
                            if j < i {
                                assert(after[j] == before[j]);
                            } else {
                                assert(j != i);
                                assert(after[j - 1] == before[j]);
                            }
                        }
                    }
                    assert forall|k: Seq<char>| #[trigger] as_map(after).dom().contains(k) implies as_map(after)[k] == as_map(before).remove(key@)[k] by {
                        let j = choose|j: int| 0 <= j < after.len() && after[j].key@ == k;
                        let j0 = if j < i { j } else { j + 1 };
                        assert(after[j] == before[j0]);
                    }
                }
            }
            Some(e.value)
        },
        None => {
            proof {
                assert(as_map(entries@) =~= as_map(entries@).remove(key@));
            }
            None
        },
    }
}


/// A key is in the map exactly when some entry carries it (distinct keys or
/// not: a later entry only overrides the value).
pub proof fn lemma_as_map_dom<V>(s: Seq<Keyed<V>>, k: Seq<char>)
    ensures
        as_map(s).dom().contains(k) <==> exists|i: int| 0 <= i < s.len() && s[i].key@ == k,
    decreases s.len(),
{
    if s.len() > 0 {
        let p = s.drop_last();
        lemma_as_map_dom(p, k);
        if exists|i: int| 0 <= i < p.len() && p[i].key@ == k {
            let i = choose|i: int| 0 <= i < p.len() && p[i].key@ == k;
            assert(s[i].key@ == k);
        }
        if exists|i: int| 0 <= i < s.len() && s[i].key@ == k {
            let i = choose|i: int| 0 <= i < s.len() && s[i].key@ == k;
            if i < p.len() {
                assert(p[i].key@ == k);
            }
        }
    }
}

} // verus!
