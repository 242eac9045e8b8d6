//! Divergence records and the ordered report.
use crate::index::{path_set, strictly_sorted, PathIndex};
use crate::order::{lemma_path_lt_irreflexive, lemma_path_lt_transitive, path_lt};
use vstd::prelude::*;
use vstd::string::*;

verus! {

/// How a path diverges from the recorded state.
#[derive(PartialEq, Eq, Structural, Clone, Copy, Debug)]
pub enum Tag {
    /// On disk, owned by no package, not excluded.
    Untracked,
    /// In the reference tree, with a live copy of other content.
    RepoDrift,
    /// Owned by a package, not excluded, absent from disk.
    Deleted,
    /// A backup file, not excluded, whose content differs from the recorded digest.
    BackupDrift,
}

/// The place of a tag among the records of one path.
pub open spec fn rank(t: Tag) -> int {
    match t {
        Tag::Untracked => 0,
        Tag::RepoDrift => 1,
        Tag::Deleted => 2,
        Tag::BackupDrift => 3,
    }
}

pub open spec fn symbol_of(t: Tag) -> char {
    match t {
        Tag::Untracked => '?',
        Tag::RepoDrift => 'R',
        Tag::Deleted => 'D',
        Tag::BackupDrift => 'B',
    }
}

impl Tag {
    /// The character that stands for the tag in the report.
    pub fn symbol(&self) -> (r: char)
        ensures
            r == symbol_of(*self),
    {
        match self {
            Tag::Untracked => '?',
            Tag::RepoDrift => 'R',
            Tag::Deleted => 'D',
            Tag::BackupDrift => 'B',
        }
    }
}

/// One divergence: a tag and a root-relative path.
pub struct Record {
    pub tag: Tag,
    pub path: String,
}

impl Record {
    /// The report line of the record, without its line break: the tag's
    /// character, a space, and the absolute path, `root` joined to the path.
    pub fn line(&self, root: &str) -> (r: String)
        ensures
            r@ == seq![symbol_of(self.tag), ' '] + root@ + self.path@,
    {
        let head = match self.tag {
            Tag::Untracked => "? ",
            Tag::RepoDrift => "R ",
            Tag::Deleted => "D ",
            Tag::BackupDrift => "B ",
        };
        proof {
            reveal_strlit("? ");
            reveal_strlit("R ");
            reveal_strlit("D ");
            reveal_strlit("B ");
        }
        assert(head@ =~= seq![symbol_of(self.tag), ' ']);
        String::from_str(head).concat(root).concat(self.path.as_str())
    }
}

/// What a record says, as plain values.
pub open spec fn finding(r: Record) -> (Tag, Seq<char>) {
    (r.tag, r.path@)
}

/// `a` comes before `b` in the report: by path, then by tag.
pub open spec fn finding_lt(a: (Tag, Seq<char>), b: (Tag, Seq<char>)) -> bool {
    path_lt(a.1, b.1) || (a.1 == b.1 && rank(a.0) < rank(b.0))
}

/// Each record comes strictly before the next: ordered by path, and no record twice.
pub open spec fn strictly_ordered(s: Seq<Record>) -> bool {
    forall|i: int, j: int|
        0 <= i < j < s.len() ==> finding_lt(finding(#[trigger] s[i]), finding(#[trigger] s[j]))
}

/// The findings that the records of `s` state.
pub open spec fn finding_set(s: Seq<Record>) -> Set<(Tag, Seq<char>)> {
    Set::new(|x: (Tag, Seq<char>)| exists|i: int| 0 <= i < s.len() && finding(s[i]) == x)
}

/// The findings of the four passes, given the paths that each reports.
pub open spec fn findings(
    untracked: Set<Seq<char>>,
    repo: Set<Seq<char>>,
    deleted: Set<Seq<char>>,
    backup: Set<Seq<char>>,
) -> Set<(Tag, Seq<char>)> {
    Set::new(
        |x: (Tag, Seq<char>)|
            match x.0 {
                Tag::Untracked => untracked.contains(x.1),
                Tag::RepoDrift => repo.contains(x.1),
                Tag::Deleted => deleted.contains(x.1),
                Tag::BackupDrift => backup.contains(x.1),
            },
    )
}

pub proof fn lemma_finding_lt_transitive(a: (Tag, Seq<char>), b: (Tag, Seq<char>), c: (Tag, Seq<char>))
    requires
        finding_lt(a, b),
        finding_lt(b, c),
    ensures
        finding_lt(a, c),
{
    if path_lt(a.1, b.1) && path_lt(b.1, c.1) {
        lemma_path_lt_transitive(a.1, b.1, c.1);
    }
}

pub proof fn lemma_finding_lt_irreflexive(a: (Tag, Seq<char>))
    ensures
        !finding_lt(a, a),
{
    lemma_path_lt_irreflexive(a.1);
}

fn copy_paths(dst: &mut Vec<String>, src: &Vec<String>)
    ensures
        final(dst)@ == old(dst)@ + src@,
{
    let mut i: usize = 0;
    while i < src.len()
        invariant
            i <= src@.len(),
            dst@ == old(dst)@ + src@.take(i as int),
        decreases src@.len() - i,
    {
        dst.push(src[i].clone());
        assert(src@.take(i as int + 1) =~= src@.take(i as int).push(src@[i as int]));
        i = i + 1;
    }
    assert(src@.take(src@.len() as int) =~= src@);
}

proof fn lemma_path_set_concat(a: Seq<String>, b: Seq<String>)
    ensures
        path_set(a + b) == path_set(a).union(path_set(b)),
{
    assert forall|p: Seq<char>| path_set(a + b).contains(p) <==> path_set(a).union(path_set(b)).contains(p) by {
        if path_set(a + b).contains(p) {
            let k = choose|k: int| 0 <= k < (a + b).len() && (a + b)[k]@ == p;
            if k >= a.len() {
                assert(b[k - a.len()]@ == p);
            }
        }
        if path_set(a).contains(p) {
            let k = choose|k: int| 0 <= k < a.len() && a[k]@ == p;
            assert((a + b)[k] == a[k]);
        }
        if path_set(b).contains(p) {
            let k = choose|k: int| 0 <= k < b.len() && b[k]@ == p;
            assert((a + b)[k + a.len()] == b[k]);
        }
    }
    assert(path_set(a + b) =~= path_set(a).union(path_set(b)));
}

fn index_of(paths: &Vec<String>) -> (r: PathIndex)
    ensures
        r.wf(),
        r@ == path_set(paths@),
{
    let mut v: Vec<String> = Vec::new();
    copy_paths(&mut v, paths);
    assert(v@ =~= paths@);
    PathIndex::new(v)
}

/// Appends the finding `(tag, p)` to `out`, where the index says it holds.
fn push_if(out: &mut Vec<Record>, index: &PathIndex, tag: Tag, p: &String)
    requires
        index.wf(),
        strictly_ordered(old(out)@),
        forall|i: int|
            0 <= i < old(out)@.len() ==> finding_lt(#[trigger] finding(old(out)@[i]), (tag, p@)),
    ensures
        strictly_ordered(final(out)@),
        forall|i: int| 0 <= i < old(out)@.len() ==> final(out)@[i] == old(out)@[i],
        index@.contains(p@) ==> final(out)@ == old(out)@.push(Record { tag, path: *p }),
        !index@.contains(p@) ==> final(out)@ == old(out)@,
{
    if index.contains(p.as_str()) {
        out.push(Record { tag, path: p.clone() });
    }
}

/// The report: one record for each finding of the four passes, ordered by
/// path and, for one path, by tag in the order untracked, repo drift,
/// deleted, backup drift. The passes hand over root-relative paths.
pub fn build_report(
    untracked: &Vec<String>,
    repo: &Vec<String>,
    deleted: &Vec<String>,
    backup: &Vec<String>,
) -> (r: Vec<Record>)
    ensures
        strictly_ordered(r@),
        finding_set(r@) == findings(
            path_set(untracked@),
            path_set(repo@),
            path_set(deleted@),
            path_set(backup@),
        ),
{
    let mut all: Vec<String> = Vec::new();
    copy_paths(&mut all, untracked);
    copy_paths(&mut all, repo);
    copy_paths(&mut all, deleted);
    copy_paths(&mut all, backup);
    proof {
        let e = Seq::<String>::empty();
        assert(e + untracked@ =~= untracked@);
        lemma_path_set_concat(untracked@, repo@);
        lemma_path_set_concat(untracked@ + repo@, deleted@);
        lemma_path_set_concat(untracked@ + repo@ + deleted@, backup@);
    }
    let every = PathIndex::new(all);
    let iu = index_of(untracked);
    let ir = index_of(repo);
    let id = index_of(deleted);
    let ib = index_of(backup);
    let ghost target = findings(iu@, ir@, id@, ib@);
    let paths = every.paths();
    let mut out: Vec<Record> = Vec::new();
    let mut k: usize = 0;
    while k < paths.len()
        invariant
            k <= paths@.len(),
            strictly_sorted(paths@),
            path_set(paths@) == iu@.union(ir@).union(id@).union(ib@),
            iu.wf(),
            ir.wf(),
            id.wf(),
            ib.wf(),
            target == findings(iu@, ir@, id@, ib@),
            strictly_ordered(out@),
            forall|i: int|
                0 <= i < out@.len() ==> exists|m: int|
                    0 <= m < k && (#[trigger] out@[i]).path@ == paths@[m]@,
            finding_set(out@) == target.filter(|x: (Tag, Seq<char>)| path_set(paths@.take(k as int)).contains(x.1)),
        decreases paths@.len() - k,
    {
        let p = &paths[k];
        let ghost before = out@;
        proof {
            assert forall|i: int| 0 <= i < out@.len() implies path_lt((#[trigger] out@[i]).path@, p@) by {
                let m = choose|m: int| 0 <= m < k && out@[i].path@ == paths@[m]@;
            }
        }
        push_if(&mut out, &iu, Tag::Untracked, p);
        let ghost o1 = out@;
        push_if(&mut out, &ir, Tag::RepoDrift, p);
        let ghost o2 = out@;
        push_if(&mut out, &id, Tag::Deleted, p);
        let ghost o3 = out@;
        push_if(&mut out, &ib, Tag::BackupDrift, p);
        proof {
            let t = paths@.take(k as int + 1);
            let u = paths@.take(k as int);
            assert(t =~= u.push(*p));
            assert forall|i: int| 0 <= i < out@.len() implies exists|m: int|
                0 <= m < k + 1 && (#[trigger] out@[i]).path@ == paths@[m]@ by {
                if i < before.len() {
                    assert(out@[i] == before[i]);
                    let m = choose|m: int| 0 <= m < k && before[i].path@ == paths@[m]@;
                } else {
                    assert(out@[i].path@ == p@);
                }
            }
            let goal = target.filter(|x: (Tag, Seq<char>)| path_set(t).contains(x.1));
            let prev = target.filter(|x: (Tag, Seq<char>)| path_set(u).contains(x.1));
            assert forall|x: (Tag, Seq<char>)| finding_set(out@).contains(x) implies goal.contains(x) by {
                let i = choose|i: int| 0 <= i < out@.len() && finding(out@[i]) == x;
                if i < before.len() {
                    assert(out@[i] == before[i]);
                    assert(finding_set(before).contains(x));
                    let m = choose|m: int| 0 <= m < u.len() && u[m]@ == x.1;
                    assert(t[m] == u[m]);
                } else {
                    assert(t[k as int]@ == x.1);
                }
            }
            assert forall|x: (Tag, Seq<char>)| goal.contains(x) implies finding_set(out@).contains(x) by {
                let m = choose|m: int| 0 <= m < t.len() && t[m]@ == x.1;
                if m < k {
                    assert(u[m] == t[m]);
                    assert(prev.contains(x));
                    let i = choose|i: int| 0 <= i < before.len() && finding(before[i]) == x;
                    assert(out@[i] == before[i]);
                } else {
                    assert(exists|j: int| 0 <= j < out@.len() && finding(out@[j]) == x) by {
                        match x.0 {
                            Tag::Untracked => { assert(finding(o1.last()) == x); assert(out@[before.len() as int] == o1.last()); },
                            Tag::RepoDrift => { assert(finding(o2.last()) == x); assert(out@[o2.len() - 1] == o2.last()); },
                            Tag::Deleted => { assert(finding(o3.last()) == x); assert(out@[o3.len() - 1] == o3.last()); },
                            Tag::BackupDrift => { assert(finding(out@.last()) == x); },
                        }
                    }
                }
            }
            assert(finding_set(out@) =~= goal);
        }
        k = k + 1;
    }
    proof {
        assert(paths@.take(paths@.len() as int) =~= paths@);
        assert(finding_set(out@) =~= findings(path_set(untracked@), path_set(repo@), path_set(deleted@), path_set(backup@)));
    }
    out
}

} // verus!
