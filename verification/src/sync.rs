//! Deletion intents for the sync client: the record a session delete leaves
//! outside the vault, and the checks a record read back must pass before the
//! client may act on it.

use vstd::prelude::*;

use crate::paths::{split_path, split_slash};
use crate::strings::{str_eq, to_owned_string};

verus! {

/// A session delete the sync client must replay: which vault, which session,
/// and where its files went in the vault's trash.
#[derive(Debug)]
pub struct DeletionIntent {
    pub version: u32,
    pub vault: String,
    pub session: String,
    pub trash: String,
}

/// The components of a `/`-separated path as `Path::components` yields them:
/// a root marker for an absolute path, a leading `.` kept, then every other
/// non-empty piece but `.`.
pub open spec fn components(p: Seq<char>) -> Seq<Seq<char>> {
    let pieces = split_slash(p);
    let head: Seq<Seq<char>> = if p.len() > 0 && p[0] == '/' {
        seq!["/"@]
    } else if pieces[0] == "."@ {
        seq!["."@]
    } else {
        Seq::empty()
    };
    head + pieces.filter(|s: Seq<char>| s.len() > 0 && s != "."@)
}

/// `Path::starts_with`: the base's components are a prefix of the path's.
pub open spec fn path_starts_with(p: Seq<char>, base: Seq<char>) -> bool {
    let a = components(p);
    let b = components(base);
    b.len() <= a.len() && a.subrange(0, b.len() as int) == b
}

fn components_exec(p: &str) -> (r: Vec<String>)
    ensures
        r@.map_values(|s: String| s@) == components(p@),
{
    let pieces = split_path(p);
    let ghost pv = pieces@.map_values(|s: String| s@);
    proof {
        crate::paths::lemma_split_slash_nonempty(p@);
        reveal_strlit("/");
        reveal_strlit(".");
    }
    let mut out: Vec<String> = Vec::new();
    if p.unicode_len() > 0 && p.get_char(0) == '/' {
        out.push(to_owned_string("/"));
    } else if str_eq(pieces[0].as_str(), ".") {
        out.push(to_owned_string("."));
    }
    let ghost head = out@.map_values(|s: String| s@);
    let ghost keep = |s: Seq<char>| s.len() > 0 && s != "."@;
    proof {
        assert(pv[0] == pieces@[0]@);
        assert(pv.subrange(0, 0).filter(keep) =~= Seq::<Seq<char>>::empty());
        assert(out@.map_values(|s: String| s@) =~= head + pv.subrange(0, 0).filter(keep));
    }
    let mut i: usize = 0;
    while i < pieces.len()
        invariant
            i <= pieces.len(),
            pv == pieces@.map_values(|s: String| s@),
            keep == (|s: Seq<char>| s.len() > 0 && s != "."@),
            out@.map_values(|s: String| s@) == head + pv.subrange(0, i as int).filter(keep),
        decreases pieces.len() - i,
    {
        proof {
            assert(pv.subrange(0, i + 1).drop_last() =~= pv.subrange(0, i as int));
            assert(pv[i as int] == pieces@[i as int]@);
            reveal_with_fuel(Seq::<_>::filter, 1);
        }
        let piece = &pieces[i];
        let ghost before = out@.map_values(|s: String| s@);
        if piece.unicode_len() > 0 && !str_eq(piece.as_str(), ".") {
            out.push(piece.clone());
            proof {
                assert(out@.map_values(|s: String| s@) =~= before.push(piece@));
            }
        }
        proof {
            assert(out@.map_values(|s: String| s@) =~= head + pv.subrange(0, i + 1).filter(keep));
        }
        i = i + 1;
    }
    proof {
        assert(pv.subrange(0, pv.len() as int) =~= pv);
    }
    out
}

/// Whether a path starts with a base path, component by component.
pub fn path_starts_with_exec(p: &str, base: &str) -> (r: bool)
    ensures
        r == path_starts_with(p@, base@),
{
    let a = components_exec(p);
    let b = components_exec(base);
    let ghost av = a@.map_values(|s: String| s@);
    let ghost bv = b@.map_values(|s: String| s@);
    if b.len() > a.len() {
        return false;
    }
    let mut i: usize = 0;
    while i < b.len()
        invariant
            i <= b.len(),
            b.len() <= a.len(),
            av == a@.map_values(|s: String| s@),
            bv == b@.map_values(|s: String| s@),
            av == components(p@),
            bv == components(base@),
            forall|j: int| 0 <= j < i ==> av[j] == bv[j],
        decreases b.len() - i,
    {
        proof {
            assert(av[i as int] == a@[i as int]@);
            assert(bv[i as int] == b@[i as int]@);
        }
        if !str_eq(a[i].as_str(), b[i].as_str()) {
            proof {
                assert(av.subrange(0, bv.len() as int)[i as int] != bv[i as int]);
                assert(av.subrange(0, bv.len() as int) != bv);
            }
            return false;
        }
        i = i + 1;
    }
    proof {
        assert(av.subrange(0, bv.len() as int) =~= bv);
    }
    true
}

/// A deletion intent read back is acted on only if it is of this format
/// version, for this (canonical) vault and this session, and points into the
/// vault's `.trash`.
pub open spec fn intent_is_valid(intent: DeletionIntent, vault: Seq<char>, session: Seq<char>) -> bool {
    &&& intent.version == 1
    &&& intent.vault@ == vault
    &&& intent.session@ == session
    &&& path_starts_with(intent.trash@, intent.vault@ + "/.trash"@)
}

/// Checks a deletion intent read back for `session` in the canonical `vault`.
pub fn check_intent(intent: &DeletionIntent, vault: &str, session: &str) -> (r: bool)
    ensures
        r == intent_is_valid(*intent, vault@, session@),
{
    if intent.version != 1 || !str_eq(intent.vault.as_str(), vault) || !str_eq(intent.session.as_str(), session) {
        return false;
    }
    let trash_root = crate::strings::concat(intent.vault.as_str(), "/.trash");
    path_starts_with_exec(intent.trash.as_str(), trash_root.as_str())
}

/// The sync staging directory must lie outside the vault, and the vault
/// outside it.
pub fn staging_is_outside_vault(root: &str, vault: &str) -> (r: bool)
    ensures
        r == !(path_starts_with(root@, vault@) || path_starts_with(vault@, root@)),
{
    !(path_starts_with_exec(root, vault) || path_starts_with_exec(vault, root))
}

} // verus!
