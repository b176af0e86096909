//! The startup layout snapshot and the one-way migration of legacy session
//! directories to `sessions/<id>`. The migration plans from the snapshot, the
//! caller probes destinations and renames, and each outcome is folded back
//! into the snapshot and the report here.

use vstd::prelude::*;

use crate::error::StoreError;
use crate::meta::SessionMeta;
use crate::paths::{
    debug_quoted, debug_str, is_safe_segment, paths_equal, same_path, segment_error_message, validate_session_id,
};
use crate::strings::{concat, seq_starts_with, str_contains_char, str_eq, str_starts_with, substring, to_owned_string};

verus! {

/// A healthy session the discovery walk found: its id, its vault-relative
/// directory, and its parsed metadata.
#[derive(Debug)]
pub struct ScannedSession {
    pub id: String,
    pub relative_dir: String,
    pub meta: SessionMeta,
}

/// One discovery walk of the vault's sessions.
#[derive(Debug)]
pub struct SessionLayoutScan {
    pub sessions: Vec<ScannedSession>,
    /// Layout diagnostics, surfaced through the rebuild report.
    pub errors: Vec<String>,
    /// Ids claimed by more than one directory.
    pub duplicate_ids: Vec<String>,
    /// Directories whose metadata exists but cannot be read.
    pub broken_dirs: Vec<String>,
    /// Directories with session content but no metadata.
    pub ghost_dirs: Vec<String>,
}

/// What the startup migration did.
#[derive(Debug)]
pub struct MigrationReport {
    pub renamed: Vec<(String, String)>,
    pub skipped: Vec<String>,
    pub failed: Vec<String>,
}

/// The layout snapshot startup normalization leaves for the rebuild.
#[derive(Debug)]
pub struct StartupLayout {
    pub scan: SessionLayoutScan,
    pub migration: MigrationReport,
}

impl StartupLayout {
    /// How many healthy sessions the snapshot holds.
    pub fn session_count(&self) -> (r: usize)
        ensures
            r == self.scan.sessions@.len(),
    {
        self.scan.sessions.len()
    }
}

/// A directory the discovery walk may take for a session: directly under
/// `sessions/` (not nested deeper, not in the trash) and not hidden.
pub open spec fn is_session_dir_path(relative: Seq<char>) -> bool {
    &&& seq_starts_with(relative, "sessions/"@)
    &&& relative.len() > 9
    &&& relative[9] != '.'
    &&& !relative.subrange(9, relative.len() as int).contains('/')
}

/// Whether the discovery walk counts a directory entry as a session: a real
/// directory (a link to one is not followed) at a session path that holds
/// `_meta.json`. Nested, hidden, trashed, linked and metadata-free
/// directories are passed over.
pub fn counts_as_session(relative: &str, is_symlink: bool, is_dir: bool, has_meta: bool) -> (r: bool)
    ensures
        r == (is_session_dir_path(relative@) && !is_symlink && is_dir && has_meta),
{
    proof {
        reveal_strlit("sessions/");
    }
    if is_symlink || !is_dir || !has_meta || !str_starts_with(relative, "sessions/") {
        return false;
    }
    let n = relative.unicode_len();
    if n <= 9 || relative.get_char(9) == '.' {
        return false;
    }
    let name = substring(relative, 9, n);
    !str_contains_char(name.as_str(), '/')
}

/// The directory a session id lives in: `sessions/<id>`, for a valid id.
pub open spec fn session_dir_for(id: Seq<char>) -> Option<Seq<char>> {
    if is_safe_segment(id) {
        Some("sessions/"@ + id)
    } else {
        None
    }
}

/// The directory a session id lives in, or why the id cannot name one.
pub fn validated_session_dir(id: &str) -> (r: Result<String, StoreError>)
    ensures
        r matches Ok(d) ==> session_dir_for(id@) == Some(d@),
        r is Err <==> session_dir_for(id@) is None,
        r matches Err(e) ==> e matches StoreError::Io(m) && m@ == segment_error_message("session id"@, id@),
{
    match validate_session_id(id) {
        Ok(()) => Ok(concat("sessions/", id)),
        Err(e) => Err(e),
    }
}

/// A directory to move: which snapshot entry, from where, to where.
#[derive(Debug)]
pub struct MigrationCandidate {
    pub index: usize,
    pub from: String,
    pub to: String,
}

/// The report line for a session the migration leaves where it is.
pub open spec fn skip_line(dir: Seq<char>, reason: Seq<char>) -> Seq<char> {
    dir + ": "@ + reason
}

/// What the plan does with one scanned session: `Err(line)` skips it with a
/// report line, `Ok(Some(target))` moves it, `Ok(None)` leaves a session
/// already in place alone.
pub open spec fn plan_for(dir: Seq<char>, id: Seq<char>, uuid_named: bool) -> Result<Option<Seq<char>>, Seq<char>> {
    match session_dir_for(id) {
        None => Err(skip_line(dir, "I/O error: "@ + segment_error_message("session id"@, id))),
        Some(t) => if same_path(dir, t) {
            Ok(None)
        } else if uuid_named {
            Err(skip_line(dir, "directory UUID does not match metadata id "@ + debug_quoted(id)))
        } else {
            Ok(Some(t))
        },
    }
}

/// The moves the plan makes for the first `n` sessions, as (index, from, to).
pub open spec fn plan_moves(s: Seq<ScannedSession>, u: Seq<bool>, n: int) -> Seq<(int, Seq<char>, Seq<char>)>
    decreases n,
{
    if n <= 0 {
        Seq::empty()
    } else {
        plan_moves(s, u, n - 1) + match plan_for(s[n - 1].relative_dir@, s[n - 1].meta.id@, u[n - 1]) {
            Ok(Some(t)) => seq![(n - 1, s[n - 1].relative_dir@, t)],
            _ => Seq::empty(),
        }
    }
}

/// The skip lines the plan writes for the first `n` sessions.
pub open spec fn plan_skips(s: Seq<ScannedSession>, u: Seq<bool>, n: int) -> Seq<Seq<char>>
    decreases n,
{
    if n <= 0 {
        Seq::empty()
    } else {
        plan_skips(s, u, n - 1) + match plan_for(s[n - 1].relative_dir@, s[n - 1].meta.id@, u[n - 1]) {
            Err(line) => seq![line],
            _ => Seq::empty(),
        }
    }
}

pub open spec fn candidate_view(c: MigrationCandidate) -> (int, Seq<char>, Seq<char>) {
    (c.index as int, c.from@, c.to@)
}

/// Plans the migration of a snapshot: every session not yet in
/// `sessions/<id>` moves there, unless its id cannot name a directory or its
/// directory is named by another UUID (`uuid_named`, one flag per session);
/// those are skipped with a line each, after the snapshot's own errors.
pub fn plan_migration(scan: &SessionLayoutScan, uuid_named: &Vec<bool>) -> (r: (MigrationReport, Vec<MigrationCandidate>))
    requires
        uuid_named@.len() == scan.sessions@.len(),
    ensures
        r.0.renamed@.len() == 0,
        r.0.failed@.len() == 0,
        r.0.skipped.deep_view() == scan.errors.deep_view() + plan_skips(scan.sessions@, uuid_named@, scan.sessions@.len() as int),
        r.1@.map_values(|c: MigrationCandidate| candidate_view(c)) == plan_moves(scan.sessions@, uuid_named@, scan.sessions@.len() as int),
{
    let ghost ss = scan.sessions@;
    let ghost uu = uuid_named@;
    let mut skipped: Vec<String> = crate::record::copy_vec(&scan.errors);
    let mut candidates: Vec<MigrationCandidate> = Vec::new();
    let mut i: usize = 0;
    while i < scan.sessions.len()
        invariant
            i <= scan.sessions.len(),
            ss == scan.sessions@,
            uu == uuid_named@,
            uu.len() == ss.len(),
            skipped.deep_view() == scan.errors.deep_view() + plan_skips(ss, uu, i as int),
            candidates@.map_values(|c: MigrationCandidate| candidate_view(c)) == plan_moves(ss, uu, i as int),
        decreases scan.sessions.len() - i,
    {
        let session = &scan.sessions[i];
        let dir = session.relative_dir.as_str();
        let ghost before_s = skipped.deep_view();
        let ghost before_c = candidates@.map_values(|c: MigrationCandidate| candidate_view(c));
        proof {
            assert(ss[i as int] == *session);
            reveal_strlit("I/O error: ");
        }
        match validated_session_dir(session.meta.id.as_str()) {
            Err(e) => {
                let text = e.to_string();
                let line = concat(concat(dir, ": ").as_str(), text.as_str());
                proof {
                    assert(line@ =~= skip_line(dir@, "I/O error: "@ + segment_error_message("session id"@, session.meta.id@)));
                    assert(session_dir_for(session.meta.id@) is None);
                    assert(plan_for(ss[i as int].relative_dir@, ss[i as int].meta.id@, uu[i as int]) == Err::<Option<Seq<char>>, Seq<char>>(line@));
                    assert(plan_skips(ss, uu, i + 1) == plan_skips(ss, uu, i as int) + seq![line@]);
                    assert(plan_moves(ss, uu, i + 1) == plan_moves(ss, uu, i as int));
                }
                let ghost lv = line@;
                skipped.push(line);
                proof {
                    assert(skipped.deep_view() =~= before_s.push(lv));
                    assert(before_s.push(lv) =~= scan.errors.deep_view() + (plan_skips(ss, uu, i as int) + seq![lv]));
                    let ps = plan_skips(ss, uu, i + 1);
                    assert(ps == plan_skips(ss, uu, i as int) + seq![lv]);
                    assert(skipped.deep_view() =~= scan.errors.deep_view() + ps);
                    assert(candidates@.map_values(|c: MigrationCandidate| candidate_view(c)) =~= plan_moves(ss, uu, i + 1));
                }
            },
            Ok(target) => {
                if paths_equal(dir, target.as_str()) {
                    proof {
                        assert(skipped.deep_view() =~= scan.errors.deep_view() + plan_skips(ss, uu, i + 1));
                        assert(candidates@.map_values(|c: MigrationCandidate| candidate_view(c)) =~= plan_moves(ss, uu, i + 1));
                    }
                } else if uuid_named[i] {
                    let quoted = debug_str(session.meta.id.as_str());
                    let head = concat(dir, ": ");
                    let reason = concat("directory UUID does not match metadata id ", quoted.as_str());
                    let line = concat(head.as_str(), reason.as_str());
                    let ghost lv = line@;
                    proof {
                        assert(lv =~= skip_line(dir@, "directory UUID does not match metadata id "@ + debug_quoted(session.meta.id@)));
                        assert(plan_for(ss[i as int].relative_dir@, ss[i as int].meta.id@, uu[i as int]) == Err::<Option<Seq<char>>, Seq<char>>(lv));
                        assert(plan_skips(ss, uu, i + 1) == plan_skips(ss, uu, i as int) + seq![lv]);
                        assert(plan_moves(ss, uu, i + 1) == plan_moves(ss, uu, i as int));
                    }
                    skipped.push(line);
                    proof {
                        assert(skipped.deep_view() =~= before_s.push(lv));
                        assert(skipped.deep_view() =~= scan.errors.deep_view() + plan_skips(ss, uu, i + 1));
                        assert(candidates@.map_values(|c: MigrationCandidate| candidate_view(c)) =~= plan_moves(ss, uu, i + 1));
                    }
                } else {
                    let c = MigrationCandidate { index: i, from: session.relative_dir.clone(), to: target };
                    let ghost cv = candidate_view(c);
                    candidates.push(c);
                    proof {
                        assert(candidates@.map_values(|c: MigrationCandidate| candidate_view(c)) =~= before_c.push(cv));
                        assert(candidates@.map_values(|c: MigrationCandidate| candidate_view(c)) =~= plan_moves(ss, uu, i + 1));
                        assert(skipped.deep_view() =~= scan.errors.deep_view() + plan_skips(ss, uu, i + 1));
                    }
                }
            },
        }
        i = i + 1;
    }
    (MigrationReport { renamed: Vec::new(), skipped, failed: Vec::new() }, candidates)
}


/// How many candidates move a session with this id.
pub open spec fn claim_count(s: Seq<ScannedSession>, cands: Seq<MigrationCandidate>, id: Seq<char>) -> int
    decreases cands.len(),
{
    if cands.len() == 0 {
        0
    } else {
        claim_count(s, cands.drop_last(), id) + if s[cands.last().index as int].meta.id@ == id { 1int } else { 0 }
    }
}

/// Why a candidate cannot move: several candidates claim its id, or the
/// caller's probe of its destination found a problem.
pub open spec fn blocker(s: Seq<ScannedSession>, cands: Seq<MigrationCandidate>, j: int, problem: Option<String>) -> Option<Seq<char>> {
    if claim_count(s, cands, s[cands[j].index as int].meta.id@) > 1 {
        Some("multiple migration sources claim this id"@)
    } else {
        match problem {
            Some(p) => Some(p@),
            None => None,
        }
    }
}

fn count_claims(scan: &SessionLayoutScan, cands: &Vec<MigrationCandidate>, id: &str) -> (r: usize)
    requires
        forall|k: int| 0 <= k < cands@.len() ==> (#[trigger] cands@[k]).index < scan.sessions@.len(),
    ensures
        r == claim_count(scan.sessions@, cands@, id@),
{
    let mut n: usize = 0;
    let mut k: usize = 0;
    while k < cands.len()
        invariant
            k <= cands.len(),
            forall|t: int| 0 <= t < cands@.len() ==> (#[trigger] cands@[t]).index < scan.sessions@.len(),
            n == claim_count(scan.sessions@, cands@.subrange(0, k as int), id@),
            n <= k,
        decreases cands.len() - k,
    {
        proof {
            assert(cands@.subrange(0, k + 1).drop_last() =~= cands@.subrange(0, k as int));
            assert(cands@[k as int].index < scan.sessions@.len());
        }
        if str_eq(scan.sessions[cands[k].index].meta.id.as_str(), id) {
            n = n + 1;
        }
        k = k + 1;
    }
    proof {
        assert(cands@.subrange(0, cands@.len() as int) =~= cands@);
    }
    n
}

/// The candidates that pass the checks, in order, among the first `n`.
pub open spec fn preflight_eligible(s: Seq<ScannedSession>, cands: Seq<MigrationCandidate>, problems: Seq<Option<String>>, n: int) -> Seq<MigrationCandidate>
    decreases n,
{
    if n <= 0 {
        Seq::empty()
    } else {
        preflight_eligible(s, cands, problems, n - 1) + if blocker(s, cands, n - 1, problems[n - 1]) is None {
            seq![cands[n - 1]]
        } else {
            Seq::empty()
        }
    }
}

/// The skip lines the checks write among the first `n` candidates.
pub open spec fn preflight_skips(s: Seq<ScannedSession>, cands: Seq<MigrationCandidate>, problems: Seq<Option<String>>, n: int) -> Seq<Seq<char>>
    decreases n,
{
    if n <= 0 {
        Seq::empty()
    } else {
        preflight_skips(s, cands, problems, n - 1) + match blocker(s, cands, n - 1, problems[n - 1]) {
            Some(reason) => seq![skip_line(cands[n - 1].from@, reason)],
            None => Seq::empty(),
        }
    }
}

/// Checks every candidate before anything moves: a candidate whose id
/// several candidates claim, or whose destination the caller found occupied
/// or unreadable (`problems`, one per candidate), is skipped with a line;
/// the rest are returned, in order, to be moved.
pub fn preflight(scan: &SessionLayoutScan, candidates: Vec<MigrationCandidate>, problems: &Vec<Option<String>>, report: &mut MigrationReport) -> (eligible: Vec<MigrationCandidate>)
    requires
        problems@.len() == candidates@.len(),
        forall|k: int| 0 <= k < candidates@.len() ==> (#[trigger] candidates@[k]).index < scan.sessions@.len(),
    ensures
        eligible@ == preflight_eligible(scan.sessions@, candidates@, problems@, candidates@.len() as int),
        final(report).skipped.deep_view() == old(report).skipped.deep_view()
            + preflight_skips(scan.sessions@, candidates@, problems@, candidates@.len() as int),
        final(report).renamed == old(report).renamed,
        final(report).failed == old(report).failed,
{
    let ghost all = candidates@;
    let ghost ss = scan.sessions@;
    let ghost pv = problems@;
    let ghost skipped0 = old(report).skipped.deep_view();
    let mut reasons: Vec<Option<String>> = Vec::new();
    let mut j: usize = 0;
    while j < candidates.len()
        invariant
            j <= candidates.len(),
            all == candidates@,
            ss == scan.sessions@,
            pv == problems@,
            pv.len() == all.len(),
            forall|k: int| 0 <= k < all.len() ==> (#[trigger] all[k]).index < ss.len(),
            reasons@.len() == j,
            forall|k: int| 0 <= k < j ==> (#[trigger] reasons@[k]).deep_view() == blocker(ss, all, k, pv[k]),
        decreases candidates.len() - j,
    {
        proof {
            assert(all[j as int].index < ss.len());
            reveal_strlit("multiple migration sources claim this id");
        }
        let claims = count_claims(scan, &candidates, scan.sessions[candidates[j].index].meta.id.as_str());
        let reason = if claims > 1 {
            Some(to_owned_string("multiple migration sources claim this id"))
        } else {
            match &problems[j] {
                Some(p) => Some(p.clone()),
                None => None,
            }
        };
        reasons.push(reason);
        proof {
            assert(reasons@[j as int].deep_view() == blocker(ss, all, j as int, pv[j as int]));
        }
        j = j + 1;
    }
    let mut out: Vec<MigrationCandidate> = Vec::new();
    let mut rest = candidates;
    let mut i: usize = 0;
    while rest.len() > 0
        invariant
            all.len() == pv.len(),
            all.len() <= usize::MAX,
            reasons@.len() == all.len(),
            rest.len() <= all.len(),
            i == all.len() - rest.len(),
            rest@ == all.subrange(i as int, all.len() as int),
            forall|k: int| 0 <= k < all.len() ==> (#[trigger] reasons@[k]).deep_view() == blocker(ss, all, k, pv[k]),
            out@ == preflight_eligible(ss, all, pv, i as int),
            report.skipped.deep_view() == skipped0 + preflight_skips(ss, all, pv, i as int),
            report.renamed == old(report).renamed,
            report.failed == old(report).failed,
        decreases rest.len(),
    {
        let c = rest.remove(0);
        proof {
            assert(all[i as int] == c);
            assert(rest@ =~= all.subrange(i + 1, all.len() as int));
        }
        let ghost before = report.skipped.deep_view();
        match &reasons[i] {
            Some(reason) => {
                let line = concat(concat(c.from.as_str(), ": ").as_str(), reason.as_str());
                report.skipped.push(line);
                proof {
                    assert(report.skipped.deep_view() =~= before.push(skip_line(c.from@, reason@)));
                    assert(report.skipped.deep_view() =~= skipped0 + preflight_skips(ss, all, pv, i + 1));
                    assert(out@ =~= preflight_eligible(ss, all, pv, i + 1));
                }
            },
            None => {
                out.push(c);
                proof {
                    assert(out@ =~= preflight_eligible(ss, all, pv, i + 1));
                    assert(report.skipped.deep_view() =~= skipped0 + preflight_skips(ss, all, pv, i + 1));
                }
            },
        }
        i = i + 1;
    }
    out
}

/// Folds one rename outcome back: a moved session's snapshot entry now
/// points at its new directory and the move is reported; a failed move is
/// reported with the caller's description of the failure.
pub fn record_rename(scan: &mut SessionLayoutScan, report: &mut MigrationReport, candidate: MigrationCandidate, outcome: Result<(), String>)
    requires
        candidate.index < old(scan).sessions@.len(),
    ensures
        final(scan).errors == old(scan).errors,
        final(scan).duplicate_ids == old(scan).duplicate_ids,
        final(scan).broken_dirs == old(scan).broken_dirs,
        final(scan).ghost_dirs == old(scan).ghost_dirs,
        final(report).skipped == old(report).skipped,
        final(scan).sessions@.len() == old(scan).sessions@.len(),
        match outcome {
            Ok(()) => {
                &&& final(report).renamed.deep_view() == old(report).renamed.deep_view().push((candidate.from@, candidate.to@))
                &&& final(report).failed == old(report).failed
                &&& final(scan).sessions@[candidate.index as int].relative_dir@ == candidate.to@
                &&& final(scan).sessions@[candidate.index as int].id == old(scan).sessions@[candidate.index as int].id
                &&& final(scan).sessions@[candidate.index as int].meta == old(scan).sessions@[candidate.index as int].meta
                &&& forall|k: int| 0 <= k < final(scan).sessions@.len() && k != candidate.index ==>
                    #[trigger] final(scan).sessions@[k] == old(scan).sessions@[k]
            },
            Err(text) => {
                &&& final(report).renamed == old(report).renamed
                &&& final(report).failed.deep_view() == old(report).failed.deep_view().push(
                    candidate.from@ + " -> "@ + candidate.to@ + ": "@ + text@)
                &&& final(scan).sessions == old(scan).sessions
            },
        },
{
    match outcome {
        Ok(()) => {
            let ghost before = scan.sessions@;
            let mut entry = scan.sessions.remove(candidate.index);
            entry.relative_dir = candidate.to.clone();
            scan.sessions.insert(candidate.index, entry);
            proof {
                assert forall|k: int| 0 <= k < scan.sessions@.len() && k != candidate.index implies
                    #[trigger] scan.sessions@[k] == before[k] by {
                }
            }
            let ghost rb = report.renamed.deep_view();
            report.renamed.push((candidate.from, candidate.to));
            proof {
                assert(report.renamed.deep_view() =~= rb.push((candidate.from@, candidate.to@)));
            }
        },
        Err(text) => {
            let a = concat(candidate.from.as_str(), " -> ");
            let b = concat(a.as_str(), candidate.to.as_str());
            let c = concat(b.as_str(), ": ");
            let line = concat(c.as_str(), text.as_str());
            let ghost fb = report.failed.deep_view();
            report.failed.push(line);
            proof {
                assert(report.failed.deep_view() =~= fb.push(candidate.from@ + " -> "@ + candidate.to@ + ": "@ + text@));
            }
        },
    }
}

/// A session the migration left in place: its directory is `sessions/<id>`.
pub open spec fn settled(s: ScannedSession) -> bool {
    match session_dir_for(s.meta.id@) {
        Some(t) => same_path(t, s.relative_dir@),
        None => false,
    }
}

/// Ends the migration: only settled sessions stay in the snapshot, and its
/// errors gain the report's skip and failure lines, sorted, each once.
pub fn finish_migration(scan: &mut SessionLayoutScan, report: &MigrationReport)
    ensures
        final(scan).sessions@ == old(scan).sessions@.filter(|s: ScannedSession| settled(s)),
        crate::meta::strictly_sorted(final(scan).errors.deep_view()),
        final(scan).errors.deep_view().to_set() == (old(scan).errors.deep_view() + report.skipped.deep_view()
            + report.failed.deep_view()).to_set(),
        final(scan).duplicate_ids == old(scan).duplicate_ids,
        final(scan).broken_dirs == old(scan).broken_dirs,
        final(scan).ghost_dirs == old(scan).ghost_dirs,
{
    let ghost all = scan.sessions@;
    let ghost n = all.len();
    let ghost keep = |s: ScannedSession| settled(s);
    let mut rest: Vec<ScannedSession> = Vec::new();
    std::mem::swap(&mut rest, &mut scan.sessions);
    let mut kept: Vec<ScannedSession> = Vec::new();
    while rest.len() > 0
        invariant
            n == all.len(),
            rest.len() <= n,
            rest@ == all.subrange(n - rest.len(), n as int),
            keep == (|s: ScannedSession| settled(s)),
            kept@ == all.subrange(0, n - rest.len()).filter(keep),
        decreases rest.len(),
    {
        let ghost done = n - rest.len();
        let s = rest.remove(0);
        proof {
            assert(all[done] == s);
            assert(all.subrange(0, done + 1).drop_last() =~= all.subrange(0, done));
            assert(rest@ =~= all.subrange(n - rest.len(), n as int));
            reveal_with_fuel(Seq::<_>::filter, 1);
        }
        let stays = match validated_session_dir(s.meta.id.as_str()) {
            Ok(dir) => paths_equal(dir.as_str(), s.relative_dir.as_str()),
            Err(_) => false,
        };
        if stays {
            kept.push(s);
        }
        proof {
            assert(kept@ =~= all.subrange(0, done + 1).filter(keep));
        }
    }
    proof {
        assert(all.subrange(0, n as int) =~= all);
    }
    scan.sessions = kept;
    let ghost e0 = scan.errors.deep_view();
    let mut errors: Vec<String> = Vec::new();
    std::mem::swap(&mut errors, &mut scan.errors);
    let mut extra = crate::record::copy_vec(&report.skipped);
    let mut failed = crate::record::copy_vec(&report.failed);
    let ghost xs = extra.deep_view();
    let ghost fs = failed.deep_view();
    errors.append(&mut extra);
    errors.append(&mut failed);
    proof {
        assert(errors.deep_view() =~= e0 + xs + fs);
    }
    scan.errors = crate::meta::sort_dedup_names(errors);
}


/// A trashed session is restored only when its metadata still claims the
/// requested id and its original directory is free again.
pub fn check_restore(trash_path: &str, claimed_id: &str, id: &str, destination: &str, destination_occupied: bool) -> (r: Result<(), StoreError>)
    ensures
        claimed_id@ != id@ ==> (r matches Err(e) && e == StoreError::Io(e->Io_0) && e->Io_0@ == "trashed directory "@
            + trash_path@ + " claims session id "@ + debug_quoted(claimed_id@) + ", not "@ + debug_quoted(id@)
            + "; refusing to restore"@),
        claimed_id@ == id@ && destination_occupied ==> (r matches Err(e) && e == StoreError::Io(e->Io_0)
            && e->Io_0@ == "restore destination "@ + destination@ + " is already occupied"@),
        claimed_id@ == id@ && !destination_occupied ==> r is Ok,
{
    if !str_eq(claimed_id, id) {
        let a = concat("trashed directory ", trash_path);
        let b = concat(a.as_str(), " claims session id ");
        let c = concat(b.as_str(), debug_str(claimed_id).as_str());
        let d = concat(c.as_str(), ", not ");
        let e = concat(d.as_str(), debug_str(id).as_str());
        return Err(StoreError::Io(concat(e.as_str(), "; refusing to restore")));
    }
    if destination_occupied {
        let a = concat("restore destination ", destination);
        return Err(StoreError::Io(concat(a.as_str(), " is already occupied")));
    }
    Ok(())
}

} // verus!
