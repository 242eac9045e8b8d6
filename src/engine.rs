//! The decisions of the four reconciliation passes. Each takes what was
//! observed on disk as plain values and returns the paths it reports.
use crate::index::{path_set, strictly_sorted, views, PathIndex};
use vstd::prelude::*;

verus! {

/// The paths `path(i)`, for `i < n` in order, of the positions that `keep` selects.
pub open spec fn chosen(path: spec_fn(int) -> Seq<char>, keep: spec_fn(int) -> bool, n: nat) -> Seq<
    Seq<char>,
>
    decreases n,
{
    if n == 0 {
        seq![]
    } else {
        let r = chosen(path, keep, (n - 1) as nat);
        if keep(n - 1) {
            r.push(path(n - 1))
        } else {
            r
        }
    }
}

/// Every path that `chosen` yields is the path of a selected position.
pub proof fn lemma_chosen_selected(
    path: spec_fn(int) -> Seq<char>,
    keep: spec_fn(int) -> bool,
    n: nat,
    p: Seq<char>,
)
    requires
        chosen(path, keep, n).contains(p),
    ensures
        exists|i: int| 0 <= i < n && keep(i) && #[trigger] path(i) == p,
    decreases n,
{
    let r = chosen(path, keep, (n - 1) as nat);
    if keep(n - 1) && p == path(n - 1) {
    } else {
        if keep(n - 1) {
            let k = choose|k: int| 0 <= k < r.len() + 1 && chosen(path, keep, n)[k] == p;
            assert(r[k] == p);
        }
        assert(r.contains(p));
        lemma_chosen_selected(path, keep, (n - 1) as nat, p);
    }
}

/// What the walk of the live root leaves: files that no package owns, and
/// owned paths that were not seen.
pub struct UntrackedOutcome {
    /// The walked paths that no package owns, in the order of the walk.
    pub untracked: Vec<String>,
    /// The owned paths that the walk did not see, sorted, each once.
    pub missing: Vec<String>,
}

/// The walked paths that are not among `owned`, in order.
pub open spec fn untracked_spec(walked: Seq<String>, owned: Set<Seq<char>>) -> Seq<Seq<char>> {
    chosen(|i: int| walked[i]@, |i: int| !owned.contains(walked[i]@), walked.len())
}

/// Untracked pass: `walked` holds the root-relative paths of the regular files
/// that the walk of the live root met. A walked path that a package owns is
/// found on disk; any other is untracked.
pub fn untracked_pass(owned: Vec<String>, walked: Vec<String>) -> (r: UntrackedOutcome)
    ensures
        views(r.untracked@) == untracked_spec(walked@, path_set(owned@)),
        strictly_sorted(r.missing@),
        path_set(r.missing@) == path_set(owned@).difference(path_set(walked@)),
        forall|p: Seq<char>|
            #![trigger path_set(r.missing@).contains(p)]
            path_set(owned@).contains(p) ==> (path_set(r.missing@).contains(p)
                <==> !path_set(walked@).contains(p)),
{
    let ghost owned_set = path_set(owned@);
    let owned_index = PathIndex::new(owned);
    let mut untracked: Vec<String> = Vec::new();
    let mut i: usize = 0;
    while i < walked.len()
        invariant
            i <= walked@.len(),
            owned_index.wf(),
            owned_index@ == owned_set,
            views(untracked@) == chosen(
                |i: int| walked@[i]@,
                |i: int| !owned_set.contains(walked@[i]@),
                i as nat,
            ),
        decreases walked@.len() - i,
    {
        if !owned_index.contains(walked[i].as_str()) {
            let ghost before = untracked@;
            untracked.push(walked[i].clone());
            assert(views(untracked@) =~= views(before).push(walked@[i as int]@));
        }
        i = i + 1;
    }
    let ghost walked_set = path_set(walked@);
    let walked_index = PathIndex::new(walked);
    let paths = owned_index.paths();
    let mut missing: Vec<String> = Vec::new();
    let mut j: usize = 0;
    while j < paths.len()
        invariant
            j <= paths@.len(),
            strictly_sorted(paths@),
            path_set(paths@) == owned_set,
            walked_index.wf(),
            walked_index@ == walked_set,
            strictly_sorted(missing@),
            forall|k: int|
                0 <= k < missing@.len() ==> exists|m: int|
                    0 <= m < j && paths@[m]@ == #[trigger] missing@[k]@,
            path_set(missing@) == path_set(paths@.take(j as int)).difference(walked_set),
        decreases paths@.len() - j,
    {
        let ghost before = missing@;
        if !walked_index.contains(paths[j].as_str()) {
            missing.push(paths[j].clone());
            assert forall|a: int, b: int| 0 <= a < b < missing@.len() implies crate::order::path_lt(
                missing@[a]@,
                missing@[b]@,
            ) by {
                if b == missing@.len() - 1 {
                    let m = choose|m: int| 0 <= m < j && paths@[m]@ == before[a]@;
                    assert(missing@[a] == before[a]);
                }
            }
        }
        proof {
            let t = paths@.take(j as int + 1);
            let u = paths@.take(j as int);
            assert(t =~= u.push(paths@[j as int]));
            assert forall|k: int| 0 <= k < missing@.len() implies exists|m: int|
                0 <= m < j + 1 && paths@[m]@ == #[trigger] missing@[k]@ by {
                if k < before.len() {
                    assert(missing@[k] == before[k]);
                    let m = choose|m: int| 0 <= m < j && paths@[m]@ == before[k]@;
                } else {
                    assert(paths@[j as int]@ == missing@[k]@);
                }
            }
            assert forall|p: Seq<char>| path_set(missing@).contains(p) implies path_set(t).difference(
                walked_set,
            ).contains(p) by {
                let k = choose|k: int| 0 <= k < missing@.len() && missing@[k]@ == p;
                if k < before.len() {
                    assert(missing@[k] == before[k]);
                    assert(path_set(before).contains(p));
                    let m = choose|m: int| 0 <= m < u.len() && u[m]@ == p;
                    assert(t[m] == u[m]);
                } else {
                    assert(t[j as int]@ == p);
                }
            }
            assert forall|p: Seq<char>| path_set(t).difference(walked_set).contains(p) implies path_set(
                missing@,
            ).contains(p) by {
                let k = choose|k: int| 0 <= k < t.len() && t[k]@ == p;
                if k < j {
                    assert(u[k] == t[k]);
                    assert(path_set(before).contains(p));
                    let m = choose|m: int| 0 <= m < before.len() && before[m]@ == p;
                    assert(missing@[m] == before[m]);
                } else {
                    assert(missing@[missing@.len() - 1]@ == p);
                }
            }
            assert(path_set(missing@) =~= path_set(t).difference(walked_set));
        }
        j = j + 1;
    }
    assert(paths@.take(paths@.len() as int) =~= paths@);
    assert(path_set(missing@) =~= owned_set.difference(walked_set));
    UntrackedOutcome { untracked, missing }
}

/// A file of the reference tree: its path relative to the tree, and the digests
/// of the reference copy and of the live copy, where they could be computed.
pub struct RepoObservation {
    pub path: String,
    pub reference_hash: Option<String>,
    pub live_hash: Option<String>,
}

/// Both digests are known and they differ.
pub open spec fn drifted(o: RepoObservation) -> bool {
    &&& o.reference_hash is Some
    &&& o.live_hash is Some
    &&& o.reference_hash->0@ != o.live_hash->0@
}

pub open spec fn repo_drift_spec(obs: Seq<RepoObservation>) -> Seq<Seq<char>> {
    chosen(|i: int| obs[i].path@, |i: int| drifted(obs[i]), obs.len())
}

/// The paths of the reference tree.
pub open spec fn repo_paths(obs: Seq<RepoObservation>) -> Set<Seq<char>> {
    Set::new(|p: Seq<char>| exists|i: int| 0 <= i < obs.len() && obs[i].path@ == p)
}

/// Repo-drift pass: the reference files whose live copy has other content, in
/// the order of `obs`. A file whose digest could not be computed is skipped.
pub fn repo_drift(obs: &Vec<RepoObservation>) -> (r: Vec<String>)
    ensures
        views(r@) == repo_drift_spec(obs@),
{
    let mut out: Vec<String> = Vec::new();
    let mut i: usize = 0;
    while i < obs.len()
        invariant
            i <= obs@.len(),
            views(out@) == chosen(|i: int| obs@[i].path@, |i: int| drifted(obs@[i]), i as nat),
        decreases obs@.len() - i,
    {
        let o = &obs[i];
        let differ = match &o.reference_hash {
            Some(a) => match &o.live_hash {
                Some(b) => *a != *b,
                None => false,
            },
            None => false,
        };
        assert(differ == drifted(obs@[i as int]));
        if differ {
            let ghost before = out@;
            out.push(o.path.clone());
            assert(views(out@) =~= views(before).push(obs@[i as int].path@));
        }
        i = i + 1;
    }
    out
}

/// A backup record of the package database: a path and its expected digest.
pub struct BackupEntry {
    pub path: String,
    pub hash: String,
}

/// A later entry of `entries` records the same path as entry `i`.
pub open spec fn superseded(entries: Seq<BackupEntry>, i: int) -> bool {
    exists|j: int| i < j < entries.len() && #[trigger] entries[j].path@ == entries[i].path@
}

/// The paths of the entries from position `i` on.
pub open spec fn later_paths(entries: Seq<BackupEntry>, i: int) -> Set<Seq<char>> {
    Set::new(|p: Seq<char>| exists|j: int| i <= j < entries.len() && entries[j].path@ == p)
}

/// Entry `i` stays for the backup pass: it is the last record of its path, and
/// the path is not in the reference tree.
pub open spec fn is_candidate(entries: Seq<BackupEntry>, repo: Set<Seq<char>>, i: int) -> bool {
    !superseded(entries, i) && !repo.contains(entries[i].path@)
}

pub open spec fn candidates_spec(entries: Seq<BackupEntry>, repo: Set<Seq<char>>, n: nat) -> Seq<
    BackupEntry,
>
    decreases n,
{
    if n == 0 {
        seq![]
    } else {
        let r = candidates_spec(entries, repo, (n - 1) as nat);
        if is_candidate(entries, repo, n - 1) {
            r.push(entries[n - 1])
        } else {
            r
        }
    }
}

/// The backup map that the backup pass reads: for each path the digest of its
/// last record (later records overwrite earlier ones), less the paths of the
/// reference tree, which the repo-drift pass checks instead.
pub fn backup_candidates(entries: &Vec<BackupEntry>, obs: &Vec<RepoObservation>) -> (r: Vec<
    BackupEntry,
>)
    ensures
        r@ == candidates_spec(entries@, repo_paths(obs@), entries@.len()),
{
    let mut names: Vec<String> = Vec::new();
    let mut k: usize = 0;
    while k < obs.len()
        invariant
            k <= obs@.len(),
            names@.len() == k,
            forall|m: int| 0 <= m < k ==> #[trigger] names@[m]@ == obs@[m].path@,
        decreases obs@.len() - k,
    {
        names.push(obs[k].path.clone());
        k = k + 1;
    }
    let ghost repo = repo_paths(obs@);
    assert(path_set(names@) =~= repo) by {
        assert forall|p: Seq<char>| repo.contains(p) implies path_set(names@).contains(p) by {
            let m = choose|m: int| 0 <= m < obs@.len() && obs@[m].path@ == p;
            assert(names@[m]@ == p);
        }
    }
    let index = PathIndex::new(names);
    let n = entries.len();
    let mut seen = PathIndex::new(Vec::new());
    assert(seen@ =~= later_paths(entries@, n as int));
    let mut rev: Vec<bool> = Vec::new();
    let mut i: usize = n;
    while i > 0
        invariant
            i <= n == entries@.len(),
            seen.wf(),
            seen@ == later_paths(entries@, i as int),
            rev@.len() == n - i,
            forall|t: int| 0 <= t < rev@.len() ==> #[trigger] rev@[t] == superseded(entries@, n - 1 - t),
        decreases i,
    {
        i = i - 1;
        let e = &entries[i];
        let sup = seen.contains(e.path.as_str());
        assert(sup == superseded(entries@, i as int)) by {
            if sup {
                let j = choose|j: int| i + 1 <= j < n && entries@[j].path@ == e.path@;
                assert(entries@[j].path@ == entries@[i as int].path@);
            }
        }
        rev.push(sup);
        seen.insert(e.path.clone());
        assert(later_paths(entries@, i as int) =~= later_paths(entries@, i as int + 1).insert(e.path@)) by {
            assert forall|p: Seq<char>| later_paths(entries@, i as int).contains(p) implies later_paths(
                entries@,
                i as int + 1,
            ).insert(e.path@).contains(p) by {
                let j = choose|j: int| i <= j < n && entries@[j].path@ == p;
                if j > i {
                    assert(later_paths(entries@, i as int + 1).contains(p));
                }
            }
            assert(entries@[i as int].path@ == e.path@);
        }
    }
    let mut out: Vec<BackupEntry> = Vec::new();
    while i < n
        invariant
            i <= n == entries@.len(),
            rev@.len() == n,
            forall|t: int| 0 <= t < n ==> #[trigger] rev@[t] == superseded(entries@, n - 1 - t),
            index.wf(),
            index@ == repo,
            out@ == candidates_spec(entries@, repo, i as nat),
        decreases n - i,
    {
        let e = &entries[i];
        let later = rev[n - 1 - i];
        if !later && !index.contains(e.path.as_str()) {
            out.push(BackupEntry { path: e.path.clone(), hash: e.hash.clone() });
        }
        i = i + 1;
    }
    out
}

pub open spec fn deleted_spec(missing: Seq<String>, excluded: Seq<bool>, present: Seq<bool>) -> Seq<
    Seq<char>,
> {
    chosen(|i: int| missing[i]@, |i: int| !excluded[i] && !present[i], missing.len())
}

/// Deleted pass: of the owned paths that the walk did not see, those that are
/// not excluded and whose metadata could not be read, in order. `excluded[i]`
/// and `present[i]` are what the matcher and the file system said of
/// `missing[i]`. A path whose metadata reads although the walk missed it lay
/// under a pruned directory, and is not reported.
pub fn deleted_paths(missing: &Vec<String>, excluded: &Vec<bool>, present: &Vec<bool>) -> (r: Vec<
    String,
>)
    requires
        excluded@.len() == missing@.len(),
        present@.len() == missing@.len(),
    ensures
        views(r@) == deleted_spec(missing@, excluded@, present@),
{
    let mut out: Vec<String> = Vec::new();
    let mut i: usize = 0;
    while i < missing.len()
        invariant
            i <= missing@.len() == excluded@.len() == present@.len(),
            views(out@) == chosen(
                |i: int| missing@[i]@,
                |i: int| !excluded@[i] && !present@[i],
                i as nat,
            ),
        decreases missing@.len() - i,
    {
        if !excluded[i] && !present[i] {
            let ghost before = out@;
            out.push(missing[i].clone());
            assert(views(out@) =~= views(before).push(missing@[i as int]@));
        }
        i = i + 1;
    }
    out
}

/// The live digest is known and differs from the recorded one.
pub open spec fn backup_changed(e: BackupEntry, live: Option<String>) -> bool {
    live is Some && live->0@ != e.hash@
}

pub open spec fn backup_drift_spec(
    candidates: Seq<BackupEntry>,
    excluded: Seq<bool>,
    live: Seq<Option<String>>,
) -> Seq<Seq<char>> {
    chosen(
        |i: int| candidates[i].path@,
        |i: int| !excluded[i] && backup_changed(candidates[i], live[i]),
        candidates.len(),
    )
}

/// Backup-drift pass: the candidates that are not excluded (the path or a
/// parent) and whose live digest differs from the recorded one. `live[i]` is
/// the digest of the live copy of `candidates[i]`, where it could be computed.
pub fn backup_drift(
    candidates: &Vec<BackupEntry>,
    excluded: &Vec<bool>,
    live: &Vec<Option<String>>,
) -> (r: Vec<String>)
    requires
        excluded@.len() == candidates@.len(),
        live@.len() == candidates@.len(),
    ensures
        views(r@) == backup_drift_spec(candidates@, excluded@, live@),
{
    let mut out: Vec<String> = Vec::new();
    let mut i: usize = 0;
    while i < candidates.len()
        invariant
            i <= candidates@.len() == excluded@.len() == live@.len(),
            views(out@) == chosen(
                |i: int| candidates@[i].path@,
                |i: int| !excluded@[i] && backup_changed(candidates@[i], live@[i]),
                i as nat,
            ),
        decreases candidates@.len() - i,
    {
        let changed = match &live[i] {
            Some(h) => *h != candidates[i].hash,
            None => false,
        };
        if !excluded[i] && changed {
            let ghost before = out@;
            out.push(candidates[i].path.clone());
            assert(views(out@) =~= views(before).push(candidates@[i as int].path@));
        }
        i = i + 1;
    }
    out
}

} // verus!
