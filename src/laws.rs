//! Properties of a whole run, stated over the passes' contracts.
use crate::engine::{
    backup_drift_spec, candidates_spec, chosen, deleted_spec, is_candidate, lemma_chosen_selected,
    repo_drift_spec, repo_paths, superseded, BackupEntry, RepoObservation,
};
use crate::exclusion::Exclusions;
use crate::index::{path_set, strictly_sorted, views};
use crate::engine::{backup_changed, untracked_spec};
use crate::report::findings;
use crate::order::{lemma_path_lt_irreflexive, path_le};
use crate::report::{
    finding, finding_lt, finding_set, lemma_finding_lt_irreflexive, lemma_finding_lt_transitive,
    strictly_ordered, Record, Tag,
};
use vstd::prelude::*;

verus! {

/// A position that `keep` does not select, whose path no other position
/// has, leaves its path out of `chosen`.
pub proof fn lemma_chosen_skips(
    path: spec_fn(int) -> Seq<char>,
    keep: spec_fn(int) -> bool,
    n: nat,
    k: int,
)
    requires
        0 <= k < n,
        !keep(k),
        forall|i: int| 0 <= i < n && i != k ==> #[trigger] path(i) != path(k),
    ensures
        !chosen(path, keep, n).contains(path(k)),
{
    if chosen(path, keep, n).contains(path(k)) {
        lemma_chosen_selected(path, keep, n, path(k));
    }
}

/// The positions in `entries` of the backup candidates, in increasing order.
pub proof fn lemma_candidates_positions(entries: Seq<BackupEntry>, repo: Set<Seq<char>>, n: nat) -> (pos:
    Seq<int>)
    requires
        n <= entries.len(),
    ensures
        pos.len() == candidates_spec(entries, repo, n).len(),
        forall|k: int|
            0 <= k < pos.len() ==> 0 <= #[trigger] pos[k] < n && candidates_spec(entries, repo, n)[k]
                == entries[pos[k]] && is_candidate(entries, repo, pos[k]),
        forall|a: int, b: int| 0 <= a < b < pos.len() ==> #[trigger] pos[a] < #[trigger] pos[b],
    decreases n,
{
    if n == 0 {
        seq![]
    } else {
        let prev = lemma_candidates_positions(entries, repo, (n - 1) as nat);
        if is_candidate(entries, repo, n - 1) {
            prev.push(n - 1)
        } else {
            prev
        }
    }
}

/// No two backup candidates record the same path: the map that the backup
/// pass reads holds one digest per path.
pub proof fn lemma_candidates_distinct(entries: Seq<BackupEntry>, repo: Set<Seq<char>>, a: int, b: int)
    requires
        0 <= a < b < candidates_spec(entries, repo, entries.len()).len(),
    ensures
        candidates_spec(entries, repo, entries.len())[a].path@ != candidates_spec(
            entries,
            repo,
            entries.len(),
        )[b].path@,
{
    let pos = lemma_candidates_positions(entries, repo, entries.len());
    let c = candidates_spec(entries, repo, entries.len());
    assert(pos[a] < pos[b]);
    if c[a].path@ == c[b].path@ {
        assert(entries[pos[b]].path@ == entries[pos[a]].path@);
        assert(superseded(entries, pos[a]));
    }
}

/// No path of the reference tree is a backup candidate.
pub proof fn lemma_candidates_outside_repo(entries: Seq<BackupEntry>, repo: Set<Seq<char>>, k: int)
    requires
        0 <= k < candidates_spec(entries, repo, entries.len()).len(),
    ensures
        !repo.contains(candidates_spec(entries, repo, entries.len())[k].path@),
{
    let pos = lemma_candidates_positions(entries, repo, entries.len());
    assert(is_candidate(entries, repo, pos[k]));
}

/// No path is reported both as repo drift and as backup drift in one run:
/// the paths of the reference tree leave the backup map before the backup pass.
pub proof fn lemma_repo_and_backup_disjoint(
    obs: Seq<RepoObservation>,
    entries: Seq<BackupEntry>,
    excluded: Seq<bool>,
    live: Seq<Option<String>>,
    p: Seq<char>,
)
    requires
        repo_drift_spec(obs).contains(p),
    ensures
        !backup_drift_spec(
            candidates_spec(entries, repo_paths(obs), entries.len()),
            excluded,
            live,
        ).contains(p),
{
    let repo = repo_paths(obs);
    let c = candidates_spec(entries, repo, entries.len());
    lemma_chosen_selected(|i: int| obs[i].path@, |i: int| crate::engine::drifted(obs[i]), obs.len(), p);
    assert(repo.contains(p));
    if backup_drift_spec(c, excluded, live).contains(p) {
        lemma_chosen_selected(
            |i: int| c[i].path@,
            |i: int| !excluded[i] && crate::engine::backup_changed(c[i], live[i]),
            c.len(),
            p,
        );
        let k = choose|k: int| 0 <= k < c.len() && c[k].path@ == p;
        lemma_candidates_outside_repo(entries, repo, k);
    }
}

/// An owned path that the walk did not see and that the matcher excludes is
/// never reported deleted.
pub proof fn lemma_excluded_never_deleted(
    missing: Seq<String>,
    excluded: Seq<bool>,
    present: Seq<bool>,
    k: int,
)
    requires
        strictly_sorted(missing),
        0 <= k < missing.len(),
        excluded[k],
    ensures
        !deleted_spec(missing, excluded, present).contains(missing[k]@),
{
    assert forall|i: int| 0 <= i < missing.len() && i != k implies missing[i]@ != missing[k]@ by {
        lemma_path_lt_irreflexive(missing[k]@);
    }
    lemma_chosen_skips(|i: int| missing[i]@, |i: int| !excluded[i] && !present[i], missing.len(), k);
}

/// A backup candidate that the matcher excludes, itself or through a parent
/// directory, is never reported as backup drift.
pub proof fn lemma_excluded_never_backup_drift(
    entries: Seq<BackupEntry>,
    repo: Set<Seq<char>>,
    excluded: Seq<bool>,
    live: Seq<Option<String>>,
    k: int,
)
    requires
        0 <= k < candidates_spec(entries, repo, entries.len()).len(),
        excluded[k],
    ensures
        !backup_drift_spec(candidates_spec(entries, repo, entries.len()), excluded, live).contains(
            candidates_spec(entries, repo, entries.len())[k].path@,
        ),
{
    let c = candidates_spec(entries, repo, entries.len());
    assert forall|i: int| 0 <= i < c.len() && i != k implies c[i].path@ != c[k].path@ by {
        if i < k {
            lemma_candidates_distinct(entries, repo, i, k);
        } else {
            lemma_candidates_distinct(entries, repo, k, i);
        }
    }
    lemma_chosen_skips(
        |i: int| c[i].path@,
        |i: int| !excluded[i] && crate::engine::backup_changed(c[i], live[i]),
        c.len(),
        k,
    );
}

/// The lines of an ordered report are non-decreasing by path.
pub proof fn lemma_report_sorted_by_path(s: Seq<Record>, i: int, j: int)
    requires
        strictly_ordered(s),
        0 <= i <= j < s.len(),
    ensures
        path_le(s[i].path@, s[j].path@),
{
    if i < j {
        assert(finding_lt(finding(s[i]), finding(s[j])));
    }
}

proof fn lemma_path_set_views(v: Seq<String>, p: Seq<char>)
    ensures
        path_set(v).contains(p) <==> views(v).contains(p),
{
    if path_set(v).contains(p) {
        let i = choose|i: int| 0 <= i < v.len() && v[i]@ == p;
        assert(views(v)[i] == p);
    }
    if views(v).contains(p) {
        let i = choose|i: int| 0 <= i < views(v).len() && views(v)[i] == p;
        assert(v[i]@ == p);
    }
}

/// A selected position puts its path into `chosen`.
pub proof fn lemma_chosen_includes(
    path: spec_fn(int) -> Seq<char>,
    keep: spec_fn(int) -> bool,
    n: nat,
    i: int,
)
    requires
        0 <= i < n,
        keep(i),
    ensures
        chosen(path, keep, n).contains(path(i)),
    decreases n,
{
    let r = chosen(path, keep, (n - 1) as nat);
    if i == n - 1 {
        assert(chosen(path, keep, n)[r.len() as int] == path(i));
    } else {
        lemma_chosen_includes(path, keep, (n - 1) as nat, i);
        let k = choose|k: int| 0 <= k < r.len() && r[k] == path(i);
        if keep(n - 1) {
            assert(chosen(path, keep, n)[k] == path(i));
        }
    }
}

/// How a run's report treats an owned path: it is never reported untracked;
/// where the walk saw it, it is never reported deleted; where the walk did not
/// see it, it is among the missing paths, and it is reported deleted where it
/// is not excluded and its metadata could not be read.
pub proof fn lemma_owned_path_in_report(
    owned: Seq<String>,
    walked: Seq<String>,
    untracked: Seq<String>,
    missing: Seq<String>,
    excluded: Seq<bool>,
    present: Seq<bool>,
    deleted: Seq<String>,
    repo: Seq<String>,
    backup: Seq<String>,
    report: Seq<Record>,
    p: Seq<char>,
)
    requires
        views(untracked) == untracked_spec(walked, path_set(owned)),
        path_set(missing) == path_set(owned).difference(path_set(walked)),
        excluded.len() == missing.len(),
        present.len() == missing.len(),
        views(deleted) == deleted_spec(missing, excluded, present),
        finding_set(report) == findings(
            path_set(untracked),
            path_set(repo),
            path_set(deleted),
            path_set(backup),
        ),
        path_set(owned).contains(p),
    ensures
        !finding_set(report).contains((Tag::Untracked, p)),
        path_set(walked).contains(p) ==> !finding_set(report).contains((Tag::Deleted, p)),
        !path_set(walked).contains(p) ==> exists|i: int| 0 <= i < missing.len() && missing[i]@ == p,
        forall|i: int|
            0 <= i < missing.len() && #[trigger] missing[i]@ == p && !excluded[i] && !present[i]
                ==> finding_set(report).contains((Tag::Deleted, p)),
{
    let owned_set = path_set(owned);
    if finding_set(report).contains((Tag::Untracked, p)) {
        lemma_path_set_views(untracked, p);
        lemma_chosen_selected(|i: int| walked[i]@, |i: int| !owned_set.contains(walked[i]@), walked.len(), p);
    }
    if path_set(walked).contains(p) && finding_set(report).contains((Tag::Deleted, p)) {
        lemma_path_set_views(deleted, p);
        lemma_chosen_selected(|i: int| missing[i]@, |i: int| !excluded[i] && !present[i], missing.len(), p);
        let i = choose|i: int| 0 <= i < missing.len() && !excluded[i] && !present[i] && missing[i]@ == p;
        assert(path_set(missing).contains(p));
    }
    if !path_set(walked).contains(p) {
        assert(path_set(missing).contains(p));
    }
    assert forall|i: int|
        0 <= i < missing.len() && #[trigger] missing[i]@ == p && !excluded[i] && !present[i]
            implies finding_set(report).contains((Tag::Deleted, p)) by {
        lemma_chosen_includes(|i: int| missing[i]@, |i: int| !excluded[i] && !present[i], missing.len(), i);
        lemma_path_set_views(deleted, p);
    }
}

/// A path that the exclusion rules match, joined to the root, appears in a
/// run's report as neither untracked, deleted nor backup drift: the walk's
/// files, the deleted pass and the backup pass all leave it out. Repo drift is
/// not filtered.
pub proof fn lemma_excluded_path_not_reported(
    ex: Exclusions,
    root: Seq<char>,
    files: Seq<String>,
    walked: Seq<String>,
    owned: Set<Seq<char>>,
    untracked: Seq<String>,
    missing: Seq<String>,
    deleted_flags: Seq<bool>,
    present: Seq<bool>,
    deleted: Seq<String>,
    candidates: Seq<BackupEntry>,
    backup_flags: Seq<bool>,
    live: Seq<Option<String>>,
    backup: Seq<String>,
    repo: Seq<String>,
    report: Seq<Record>,
    p: Seq<char>,
)
    requires
        views(walked) == ex.kept(root, files),
        views(untracked) == untracked_spec(walked, owned),
        deleted_flags.len() == missing.len(),
        forall|i: int|
            0 <= i < missing.len() ==> #[trigger] deleted_flags[i] == ex.excludes(root + missing[i]@, false),
        views(deleted) == deleted_spec(missing, deleted_flags, present),
        backup_flags.len() == candidates.len(),
        forall|i: int|
            0 <= i < candidates.len() ==> #[trigger] backup_flags[i] == ex.excludes_path_or_parent(
                root + candidates[i].path@,
            ),
        views(backup) == backup_drift_spec(candidates, backup_flags, live),
        finding_set(report) == findings(
            path_set(untracked),
            path_set(repo),
            path_set(deleted),
            path_set(backup),
        ),
        ex.excludes(root + p, false),
    ensures
        !finding_set(report).contains((Tag::Untracked, p)),
        !finding_set(report).contains((Tag::Deleted, p)),
        !finding_set(report).contains((Tag::BackupDrift, p)),
{
    if finding_set(report).contains((Tag::Untracked, p)) {
        lemma_path_set_views(untracked, p);
        lemma_chosen_selected(|i: int| walked[i]@, |i: int| !owned.contains(walked[i]@), walked.len(), p);
        let i = choose|i: int| 0 <= i < walked.len() && !owned.contains(walked[i]@) && walked[i]@ == p;
        assert(views(walked)[i] == p);
        lemma_chosen_selected(
            |i: int| files[i]@,
            |i: int| !ex.excludes(root + files[i]@, false),
            files.len(),
            p,
        );
    }
    if finding_set(report).contains((Tag::Deleted, p)) {
        lemma_path_set_views(deleted, p);
        lemma_chosen_selected(
            |i: int| missing[i]@,
            |i: int| !deleted_flags[i] && !present[i],
            missing.len(),
            p,
        );
    }
    if finding_set(report).contains((Tag::BackupDrift, p)) {
        lemma_path_set_views(backup, p);
        lemma_chosen_selected(
            |i: int| candidates[i].path@,
            |i: int| !backup_flags[i] && backup_changed(candidates[i], live[i]),
            candidates.len(),
            p,
        );
    }
}

/// Two ordered reports that state the same findings are the same, line for
/// line: the report depends on the set of findings alone, not on the order in
/// which the passes produced them, so a run repeated on unchanged inputs
/// prints the same report.
pub proof fn lemma_report_determined(a: Seq<Record>, b: Seq<Record>)
    requires
        strictly_ordered(a),
        strictly_ordered(b),
        finding_set(a) == finding_set(b),
    ensures
        a.map_values(|r: Record| finding(r)) == b.map_values(|r: Record| finding(r)),
    decreases a.len(),
{
    if a.len() == 0 || b.len() == 0 {
        if a.len() > 0 {
            assert(finding_set(a).contains(finding(a[0])));
        }
        if b.len() > 0 {
            assert(finding_set(b).contains(finding(b[0])));
        }
        assert(a.map_values(|r: Record| finding(r)) =~= b.map_values(|r: Record| finding(r)));
    } else {
        let x = finding(a[0]);
        let y = finding(b[0]);
        assert(finding_set(a).contains(x));
        assert(finding_set(b).contains(y));
        let i = choose|i: int| 0 <= i < a.len() && finding(a[i]) == y;
        let j = choose|j: int| 0 <= j < b.len() && finding(b[j]) == x;
        if i > 0 && j > 0 {
            assert(finding_lt(x, y));
            assert(finding_lt(y, x));
            lemma_finding_lt_transitive(x, y, x);
            lemma_finding_lt_irreflexive(x);
        }
        assert(x == y);
        let ra = a.drop_first();
        let rb = b.drop_first();
        assert forall|z: (Tag, Seq<char>)| finding_set(ra).contains(z) <==> finding_set(rb).contains(z) by {
            if finding_set(ra).contains(z) {
                let m = choose|m: int| 0 <= m < ra.len() && finding(ra[m]) == z;
                assert(finding(a[m + 1]) == z);
                assert(finding_set(b).contains(z));
                let q = choose|q: int| 0 <= q < b.len() && finding(b[q]) == z;
                if q == 0 {
                    assert(finding_lt(x, z));
                    lemma_finding_lt_irreflexive(x);
                }
                assert(rb[q - 1] == b[q]);
            }
            if finding_set(rb).contains(z) {
                let m = choose|m: int| 0 <= m < rb.len() && finding(rb[m]) == z;
                assert(finding(b[m + 1]) == z);
                assert(finding_set(a).contains(z));
                let q = choose|q: int| 0 <= q < a.len() && finding(a[q]) == z;
                if q == 0 {
                    assert(finding_lt(y, z));
                    lemma_finding_lt_irreflexive(y);
                }
                assert(ra[q - 1] == a[q]);
            }
        }
        assert(finding_set(ra) =~= finding_set(rb));
        lemma_report_determined(ra, rb);
        assert(a.map_values(|r: Record| finding(r)) =~= seq![x] + ra.map_values(|r: Record| finding(r)));
        assert(b.map_values(|r: Record| finding(r)) =~= seq![y] + rb.map_values(|r: Record| finding(r)));
    }
}

} // verus!
