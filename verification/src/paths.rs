//! Vault path rules: which ids may become a single directory or file name, and
//! which vault-relative paths stay inside the vault.

use vstd::prelude::*;
use vstd::string::*;

use crate::error::StoreError;
use crate::strings::{concat, push_char, str_contains_char, str_eq, to_owned_string};

verus! {

/// The `Debug` rendering of a string (quoted and escaped), as `format!("{s:?}")`.
pub uninterp spec fn debug_quoted(s: Seq<char>) -> Seq<char>;

/// Calls std's `Debug` formatting for `str`. Claimed: the result depends on the
/// characters of `s` alone, named `debug_quoted`.
#[verifier::external_body]
pub(crate) fn debug_str(s: &str) -> (r: String)
    ensures
        r@ == debug_quoted(s@),
{
    format!("{s:?}")
}

/// A single safe path segment: non-empty, not hidden (so neither `.` nor `..`),
/// and free of separators and NUL. On Unix an absolute path begins with `/`, so a
/// segment without `/` is never absolute.
pub open spec fn is_safe_segment(id: Seq<char>) -> bool {
    &&& id.len() > 0
    &&& id[0] != '.'
    &&& !id.contains('/')
    &&& !id.contains('\\')
    &&& !id.contains('\0')
}

pub open spec fn segment_error_message(kind: Seq<char>, id: Seq<char>) -> Seq<char> {
    "invalid "@ + kind + ": "@ + debug_quoted(id)
}

/// Rejects anything that is not a single safe path segment.
pub fn validate_path_segment(kind: &str, id: &str) -> (r: Result<(), StoreError>)
    ensures
        r is Ok <==> is_safe_segment(id@),
        r matches Err(e) ==> e matches StoreError::Io(m) && m@ == segment_error_message(
            kind@,
            id@,
        ),
{
    let n = id.unicode_len();
    let ok = n > 0 && id.get_char(0) != '.' && !str_contains_char(id, '/') && !str_contains_char(
        id,
        '\\',
    ) && !str_contains_char(id, '\0');
    if ok {
        Ok(())
    } else {
        let head = concat(concat("invalid ", kind).as_str(), ": ");
        let quoted = debug_str(id);
        Err(StoreError::Io(concat(head.as_str(), quoted.as_str())))
    }
}

/// A session id becomes a directory name directly under `sessions/`, so it must be
/// a single safe path segment.
pub fn validate_session_id(id: &str) -> (r: Result<(), StoreError>)
    ensures
        r is Ok <==> is_safe_segment(id@),
        r matches Err(e) ==> e matches StoreError::Io(m) && m@ == segment_error_message(
            "session id"@,
            id@,
        ),
{
    validate_path_segment("session id", id)
}

/// Enhanced doc ids become `enhanced/<id>.md`; same rule as session ids.
pub fn validate_doc_id(id: &str) -> (r: Result<(), StoreError>)
    ensures
        r is Ok <==> is_safe_segment(id@),
        r matches Err(e) ==> e matches StoreError::Io(m) && m@ == segment_error_message(
            "enhanced doc id"@,
            id@,
        ),
{
    validate_path_segment("enhanced doc id", id)
}

/// The `/`-separated pieces of a path, empty pieces included (`"a//b"` has three).
pub open spec fn split_slash(p: Seq<char>) -> Seq<Seq<char>>
    decreases p.len(),
{
    if p.len() == 0 {
        seq![Seq::<char>::empty()]
    } else if p.last() == '/' {
        split_slash(p.drop_last()).push(Seq::<char>::empty())
    } else {
        let s = split_slash(p.drop_last());
        s.update(s.len() - 1, s.last().push(p.last()))
    }
}

pub proof fn lemma_split_slash_nonempty(p: Seq<char>)
    ensures
        split_slash(p).len() >= 1,
    decreases p.len(),
{
    if p.len() > 0 {
        lemma_split_slash_nonempty(p.drop_last());
    }
}

/// Splits a path at every `/`.
pub fn split_path(p: &str) -> (r: Vec<String>)
    ensures
        r@.map_values(|s: String| s@) == split_slash(p@),
{
    let n = p.unicode_len();
    let mut done: Vec<String> = Vec::new();
    let mut cur = String::new();
    let mut i: usize = 0;
    assert(p@.subrange(0, 0) =~= Seq::<char>::empty());
    assert(done@.map_values(|s: String| s@).push(cur@) =~= split_slash(p@.subrange(0, 0)));
    while i < n
        invariant
            n == p@.len(),
            i <= n,
            done@.map_values(|s: String| s@).push(cur@) == split_slash(p@.subrange(0, i as int)),
        decreases n - i,
    {
        let c = p.get_char(i);
        let ghost prev = p@.subrange(0, i as int);
        let ghost next = p@.subrange(0, i + 1);
        assert(next.drop_last() =~= prev);
        assert(next.last() == c);
        if c == '/' {
            let finished = cur;
            done.push(finished);
            cur = String::new();
            assert(done@.map_values(|s: String| s@) =~= split_slash(prev));
            assert(done@.map_values(|s: String| s@).push(cur@) =~= split_slash(next));
        } else {
            let ghost old_cur = cur@;
            push_char(&mut cur, c);
            assert(done@.map_values(|s: String| s@).push(cur@) =~= split_slash(next));
        }
        i = i + 1;
    }
    done.push(cur);
    assert(p@.subrange(0, n as int) =~= p@);
    assert(done@.map_values(|s: String| s@) =~= split_slash(p@));
    done
}

pub open spec fn is_parent_segment(s: Seq<char>) -> bool {
    s == seq!['.', '.']
}

pub open spec fn is_current_segment(s: Seq<char>) -> bool {
    s == seq!['.']
}

/// A vault-relative path whose Unix components are all ordinary names: it is
/// non-empty, does not start at the root (`/`) or with a `.` component, and
/// contains no `..` component. Empty and interior `.` pieces are not components.
pub open spec fn is_safe_relative_path(p: Seq<char>) -> bool {
    let segs = split_slash(p);
    &&& p.len() > 0
    &&& segs[0].len() > 0
    &&& !is_current_segment(segs[0])
    &&& forall|k: int| 0 <= k < segs.len() ==> !is_parent_segment(#[trigger] segs[k])
}

fn is_dot(s: &String) -> (r: bool)
    ensures
        r == is_current_segment(s@),
{
    let n = s.unicode_len();
    let r = n == 1 && s.get_char(0) == '.';
    proof {
        if n == 1 && s@[0] == '.' {
            assert(s@ =~= seq!['.']);
        }
    }
    r
}

fn is_dot_dot(s: &String) -> (r: bool)
    ensures
        r == is_parent_segment(s@),
{
    let n = s.unicode_len();
    let r = n == 2 && s.get_char(0) == '.' && s.get_char(1) == '.';
    proof {
        if n == 2 && s@[0] == '.' && s@[1] == '.' {
            assert(s@ =~= seq!['.', '.']);
        }
    }
    r
}

pub open spec fn relative_path_error_message(p: Seq<char>) -> Seq<char> {
    if p.len() == 0 {
        "empty vault-relative path"@
    } else {
        "unsafe vault-relative path: "@ + p
    }
}

/// Rejects a vault-relative path that could escape the vault.
pub fn validate_relative_path(relative: &str) -> (r: Result<(), StoreError>)
    ensures
        r is Ok <==> is_safe_relative_path(relative@),
        r matches Err(e) ==> e matches StoreError::Io(m) && m@ == relative_path_error_message(
            relative@,
        ),
{
    if relative.unicode_len() == 0 {
        return Err(StoreError::Io(to_owned_string("empty vault-relative path")));
    }
    let segs = split_path(relative);
    proof {
        lemma_split_slash_nonempty(relative@);
    }
    let ghost views = segs@.map_values(|s: String| s@);
    assert(views.len() == segs@.len());
    let mut ok = segs[0].unicode_len() > 0 && !is_dot(&segs[0]);
    assert(ok == (views[0].len() > 0 && !is_current_segment(views[0])));
    let mut k: usize = 0;
    while k < segs.len()
        invariant
            views == segs@.map_values(|s: String| s@),
            views == split_slash(relative@),
            k <= segs.len(),
            ok == (views[0].len() > 0 && !is_current_segment(views[0]) && forall|j: int|
                0 <= j < k ==> !is_parent_segment(#[trigger] views[j])),
        decreases segs.len() - k,
    {
        if is_dot_dot(&segs[k]) {
            ok = false;
        }
        assert(views[k as int] == segs@[k as int]@);
        k = k + 1;
    }
    if ok {
        Ok(())
    } else {
        Err(StoreError::Io(concat("unsafe vault-relative path: ", relative)))
    }
}

/// The first ordinary name at or after position `k` of a split path (skipping
/// empty and `.` pieces, which are not components).
pub open spec fn first_named_from(segs: Seq<Seq<char>>, k: int) -> Option<Seq<char>>
    decreases segs.len() - k,
{
    if k < 0 || k >= segs.len() {
        None
    } else if segs[k].len() == 0 || is_current_segment(segs[k]) {
        first_named_from(segs, k + 1)
    } else {
        Some(segs[k])
    }
}

/// The session id a vault-relative path lies under: the component right after a
/// leading `sessions` component, if it is a safe segment.
pub open spec fn session_id_of_path(p: Seq<char>) -> Option<Seq<char>> {
    let segs = split_slash(p);
    if segs[0] == "sessions"@ {
        match first_named_from(segs, 1) {
            Some(id) => if is_safe_segment(id) {
                Some(id)
            } else {
                None
            },
            None => None,
        }
    } else {
        None
    }
}

pub fn session_id_for_relative_path(relative: &str) -> (r: Option<String>)
    ensures
        r matches Some(id) ==> session_id_of_path(relative@) == Some(id@),
        r is None ==> session_id_of_path(relative@) is None,
{
    let segs = split_path(relative);
    proof {
        lemma_split_slash_nonempty(relative@);
    }
    let ghost views = segs@.map_values(|s: String| s@);
    assert(views[0] == segs@[0]@);
    if !str_eq(segs[0].as_str(), "sessions") {
        return None;
    }
    let mut k: usize = 1;
    while k < segs.len()
        invariant
            views == segs@.map_values(|s: String| s@),
            views == split_slash(relative@),
            1 <= k <= segs.len(),
            views[0] == "sessions"@,
            first_named_from(views, 1) == first_named_from(views, k as int),
        decreases segs.len() - k,
    {
        assert(views[k as int] == segs@[k as int]@);
        if segs[k].unicode_len() > 0 && !is_dot(&segs[k]) {
            assert(first_named_from(views, k as int) == Some(views[k as int]));
            assert(views[0] == "sessions"@);
            let candidate = segs[k].as_str();
            return match validate_session_id(candidate) {
                Ok(()) => {
                    let id = segs[k].clone();
                    assert(session_id_of_path(relative@) == Some(id@));
                    Some(id)
                },
                Err(_) => None,
            };
        }
        k = k + 1;
    }
    None
}

/// The pieces of a path that are components: empty and `.` pieces are not.
pub open spec fn named_pieces(segs: Seq<Seq<char>>) -> Seq<Seq<char>> {
    segs.filter(|s: Seq<char>| s.len() > 0 && !is_current_segment(s))
}

/// The components of a Unix path, as `Path::components` yields them: the
/// root (written `/`) for an absolute path, a leading `.` of a relative path,
/// then every piece that is neither empty nor `.`; `..` stays.
pub open spec fn path_components(p: Seq<char>) -> Seq<Seq<char>> {
    let segs = split_slash(p);
    if p.len() > 0 && p[0] == '/' {
        seq![seq!['/']] + named_pieces(segs.drop_first())
    } else if is_current_segment(segs[0]) {
        seq![seq!['.']] + named_pieces(segs.drop_first())
    } else {
        named_pieces(segs)
    }
}

/// Two paths are equal as `Path`s when their components are.
pub open spec fn same_path(a: Seq<char>, b: Seq<char>) -> bool {
    path_components(a) == path_components(b)
}

/// The components of a path.
pub fn path_components_of(p: &str) -> (r: Vec<String>)
    ensures
        r@.map_values(|s: String| s@) == path_components(p@),
{
    let segs = split_path(p);
    proof {
        lemma_split_slash_nonempty(p@);
    }
    let ghost views = segs@.map_values(|s: String| s@);
    assert(views[0] == segs@[0]@);
    let mut out: Vec<String> = Vec::new();
    let mut start: usize = 0;
    if p.unicode_len() > 0 && p.get_char(0) == '/' {
        out.push(to_owned_string("/"));
        start = 1;
        proof {
            reveal_strlit("/");
            assert("/"@ =~= seq!['/']);
            assert(out@[0]@ == "/"@);
            assert(out@.map_values(|s: String| s@) =~= seq![seq!['/']]);
        }
    } else if is_dot(&segs[0]) {
        out.push(to_owned_string("."));
        start = 1;
        proof {
            reveal_strlit(".");
            assert("."@ =~= seq!['.']);
            assert(out@[0]@ == "."@);
            assert(out@.map_values(|s: String| s@) =~= seq![seq!['.']]);
        }
    } else {
        assert(out@.map_values(|s: String| s@) =~= Seq::<Seq<char>>::empty());
    }
    let ghost head = out@.map_values(|s: String| s@);
    let ghost pred = |s: Seq<char>| s.len() > 0 && !is_current_segment(s);
    let mut k: usize = start;
    assert(views.subrange(start as int, start as int).filter(pred) =~= Seq::<Seq<char>>::empty());
    while k < segs.len()
        invariant
            views == segs@.map_values(|s: String| s@),
            start <= k <= segs.len(),
            start <= 1,
            pred == (|s: Seq<char>| s.len() > 0 && !is_current_segment(s)),
            out@.map_values(|s: String| s@) == head + views.subrange(start as int, k as int).filter(pred),
        decreases segs.len() - k,
    {
        let ghost before = views.subrange(start as int, k as int);
        let ghost after = views.subrange(start as int, k + 1);
        assert(after.drop_last() =~= before);
        assert(after.last() == segs@[k as int]@);
        proof {
            reveal_with_fuel(Seq::<_>::filter, 1);
        }
        if segs[k].unicode_len() > 0 && !is_dot(&segs[k]) {
            let piece = segs[k].clone();
            let ghost prev_out = out@.map_values(|s: String| s@);
            out.push(piece);
            assert(pred(after.last()));
            assert(after.filter(pred) =~= before.filter(pred).push(after.last()));
            assert(out@.map_values(|s: String| s@) =~= prev_out.push(piece@));
            assert(out@.map_values(|s: String| s@) =~= head + after.filter(pred));
        } else {
            assert(out@.map_values(|s: String| s@) =~= head + after.filter(pred));
        }
        k = k + 1;
    }
    proof {
        if start == 1 {
            assert(views.subrange(1, views.len() as int) =~= views.drop_first());
        } else {
            assert(views.subrange(0, views.len() as int) =~= views);
        }
        assert(views == split_slash(p@));
    }
    out
}

/// Whether two paths are equal as `Path`s.
pub fn paths_equal(a: &str, b: &str) -> (r: bool)
    ensures
        r == same_path(a@, b@),
{
    let ca = path_components_of(a);
    let cb = path_components_of(b);
    let ghost va = ca@.map_values(|s: String| s@);
    let ghost vb = cb@.map_values(|s: String| s@);
    if ca.len() != cb.len() {
        assert(va.len() != vb.len());
        return false;
    }
    let mut i: usize = 0;
    while i < ca.len()
        invariant
            ca.len() == cb.len(),
            va == path_components(a@),
            vb == path_components(b@),
            va == ca@.map_values(|s: String| s@),
            vb == cb@.map_values(|s: String| s@),
            i <= ca.len(),
            forall|j: int| 0 <= j < i ==> va[j] == vb[j],
        decreases ca.len() - i,
    {
        if !str_eq(ca[i].as_str(), cb[i].as_str()) {
            assert(va[i as int] != vb[i as int]);
            return false;
        }
        i = i + 1;
    }
    assert(va =~= vb);
    true
}

/// Whether two paths name the same file: their canonical forms when both
/// resolve, the paths as given otherwise.
pub fn is_same_file_path(a: &str, b: &str, a_canonical: Option<&str>, b_canonical: Option<&str>) -> (r: bool)
    ensures
        r == match (a_canonical, b_canonical) {
            (Some(x), Some(y)) => same_path(x@, y@),
            _ => same_path(a@, b@),
        },
{
    match (a_canonical, b_canonical) {
        (Some(x), Some(y)) => paths_equal(x, y),
        _ => paths_equal(a, b),
    }
}

} // verus!
