//! A set of paths held sorted, for membership tests in logarithmic time.
use crate::order::{compare_paths, lemma_path_lt_irreflexive, lemma_path_lt_transitive, path_le, path_lt};
use core::cmp::Ordering;
use vstd::prelude::*;

verus! {

broadcast use vstd::seq_lib::group_to_multiset_ensures;

/// The paths that the strings of `s` spell.
pub open spec fn path_set(s: Seq<String>) -> Set<Seq<char>> {
    Set::new(|p: Seq<char>| exists|i: int| 0 <= i < s.len() && s[i]@ == p)
}

/// The paths of `s`, in order.
pub open spec fn views(s: Seq<String>) -> Seq<Seq<char>> {
    s.map_values(|x: String| x@)
}

/// Each path of `s` sorts strictly before the next: sorted, without repeats.
pub open spec fn strictly_sorted(s: Seq<String>) -> bool {
    forall|i: int, j: int| 0 <= i < j < s.len() ==> path_lt(#[trigger] s[i]@, #[trigger] s[j]@)
}

pub open spec fn sorted(s: Seq<String>) -> bool {
    forall|i: int, j: int| 0 <= i < j < s.len() ==> path_le(#[trigger] s[i]@, #[trigger] s[j]@)
}

/// Relies on `slice::sort`: the items are permuted into non-decreasing order
/// of `String`'s `Ord`, the order of `compare_paths`.
#[verifier::external_body]
fn sort_strings(v: &mut Vec<String>)
    ensures
        final(v)@.to_multiset() == old(v)@.to_multiset(),
        sorted(final(v)@),
{
    v.sort();
}

/// A set of paths, kept as a sorted vector without repeats.
pub struct PathIndex {
    paths: Vec<String>,
}

impl View for PathIndex {
    type V = Set<Seq<char>>;

    closed spec fn view(&self) -> Set<Seq<char>> {
        path_set(self.paths@)
    }
}

impl PathIndex {
    pub closed spec fn wf(&self) -> bool {
        strictly_sorted(self.paths@)
    }

    /// The index of the paths in `paths`; repeats collapse.
    pub fn new(paths: Vec<String>) -> (r: PathIndex)
        ensures
            r.wf(),
            r@ == path_set(paths@),
    {
        let mut v = paths;
        sort_strings(&mut v);
        assert forall|p: Seq<char>| path_set(v@).contains(p) <==> path_set(paths@).contains(p) by {
            if path_set(v@).contains(p) {
                let i = choose|i: int| 0 <= i < v@.len() && v@[i]@ == p;
                assert(v@.contains(v@[i]));
                assert(paths@.to_multiset().count(v@[i]) > 0);
                assert(paths@.contains(v@[i]));
            }
            if path_set(paths@).contains(p) {
                let i = choose|i: int| 0 <= i < paths@.len() && paths@[i]@ == p;
                assert(paths@.contains(paths@[i]));
                assert(v@.to_multiset().count(paths@[i]) > 0);
                assert(v@.contains(paths@[i]));
            }
        }
        assert(path_set(v@) =~= path_set(paths@));
        let mut out: Vec<String> = Vec::new();
        let mut i: usize = 0;
        assert(path_set(out@) =~= path_set(v@.take(0)));
        while i < v.len()
            invariant
                i <= v@.len(),
                sorted(v@),
                strictly_sorted(out@),
                path_set(out@) == path_set(v@.take(i as int)),
                i > 0 ==> out@.len() > 0 && out@.last()@ == v@[i - 1]@,
                i == 0 ==> out@.len() == 0,
            decreases v@.len() - i,
        {
            let ghost before = out@;
            let fresh = if out.len() == 0 {
                true
            } else {
                match compare_paths(out[out.len() - 1].as_str(), v[i].as_str()) {
                    Ordering::Equal => false,
                    _ => true,
                }
            };
            proof {
                if i > 0 {
                    assert(path_le(v@[i - 1]@, v@[i as int]@));
                }
            }
            if fresh {
                let ghost prev = out@;
                proof {
                    if i > 0 {
                        assert(path_lt(prev.last()@, v@[i as int]@));
                    }
                }
                out.push(v[i].clone());
                proof {
                    assert forall|a: int, b: int| 0 <= a < b < out@.len() implies path_lt(
                        out@[a]@,
                        out@[b]@,
                    ) by {
                        if b == out@.len() - 1 && a < b - 1 {
                            lemma_path_lt_transitive(out@[a]@, prev.last()@, out@[b]@);
                        }
                    }
                }
            }
            proof {
                let t = v@.take(i as int + 1);
                let u = v@.take(i as int);
                assert(t =~= u.push(v@[i as int]));
                assert(out@.last()@ == v@[i as int]@);
                assert forall|p: Seq<char>| path_set(out@).contains(p) implies path_set(t).contains(p) by {
                    let k = choose|k: int| 0 <= k < out@.len() && out@[k]@ == p;
                    if k < before.len() {
                        assert(path_set(before).contains(p));
                        let m = choose|m: int| 0 <= m < u.len() && u[m]@ == p;
                        assert(t[m] == u[m]);
                    } else {
                        assert(t[i as int]@ == p);
                    }
                }
                assert forall|p: Seq<char>| path_set(t).contains(p) implies path_set(out@).contains(p) by {
                    let k = choose|k: int| 0 <= k < t.len() && t[k]@ == p;
                    if k < i {
                        assert(u[k] == t[k]);
                        assert(path_set(u).contains(p));
                        let m = choose|m: int| 0 <= m < before.len() && before[m]@ == p;
                        assert(out@[m] == before[m]);
                    } else {
                        assert(out@[out@.len() - 1]@ == p);
                    }
                }
                assert(path_set(out@) =~= path_set(t));
            }
            i = i + 1;
        }
        assert(v@.take(v@.len() as int) =~= v@);
        PathIndex { paths: out }
    }

    /// Whether `p` is in the set.
    pub fn contains(&self, p: &str) -> (r: bool)
        requires
            self.wf(),
        ensures
            r == self@.contains(p@),
    {
        let n = self.paths.len();
        let mut lo: usize = 0;
        let mut hi: usize = n;
        while lo < hi
            invariant
                lo <= hi <= n == self.paths@.len(),
                strictly_sorted(self.paths@),
                forall|k: int| 0 <= k < lo ==> path_lt(#[trigger] self.paths@[k]@, p@),
                forall|k: int| hi <= k < n ==> path_lt(p@, #[trigger] self.paths@[k]@),
            decreases hi - lo,
        {
            let mid = lo + (hi - lo) / 2;
            match compare_paths(self.paths[mid].as_str(), p) {
                Ordering::Equal => {
                    assert(self.paths@[mid as int]@ == p@);
                    assert(path_set(self.paths@).contains(p@));
                    return true;
                },
                Ordering::Less => {
                    assert forall|k: int| 0 <= k <= mid implies path_lt(
                        #[trigger] self.paths@[k]@,
                        p@,
                    ) by {
                        if k < mid {
                            lemma_path_lt_transitive(self.paths@[k]@, self.paths@[mid as int]@, p@);
                        }
                    }
                    lo = mid + 1;
                },
                Ordering::Greater => {
                    assert forall|k: int| mid <= k < n implies path_lt(
                        p@,
                        #[trigger] self.paths@[k]@,
                    ) by {
                        if k > mid {
                            lemma_path_lt_transitive(p@, self.paths@[mid as int]@, self.paths@[k]@);
                        }
                    }
                    hi = mid;
                },
            }
        }
        proof {
            if path_set(self.paths@).contains(p@) {
                let k = choose|k: int| 0 <= k < n && self.paths@[k]@ == p@;
                lemma_path_lt_irreflexive(p@);
            }
        }
        false
    }

    /// Adds `p` to the set.
    pub fn insert(&mut self, p: String)
        requires
            old(self).wf(),
        ensures
            final(self).wf(),
            final(self)@ == old(self)@.insert(p@),
    {
        let n = self.paths.len();
        let mut lo: usize = 0;
        let mut hi: usize = n;
        while lo < hi
            invariant
                lo <= hi <= n == self.paths@.len(),
                self.paths@ == old(self).paths@,
                strictly_sorted(self.paths@),
                forall|k: int| 0 <= k < lo ==> path_lt(#[trigger] self.paths@[k]@, p@),
                forall|k: int| hi <= k < n ==> path_lt(p@, #[trigger] self.paths@[k]@),
            decreases hi - lo,
        {
            let mid = lo + (hi - lo) / 2;
            match compare_paths(self.paths[mid].as_str(), p.as_str()) {
                Ordering::Equal => {
                    assert(self.paths@[mid as int]@ == p@);
                    assert(path_set(self.paths@) =~= path_set(self.paths@).insert(p@));
                    return;
                },
                Ordering::Less => {
                    assert forall|k: int| 0 <= k <= mid implies path_lt(
                        #[trigger] self.paths@[k]@,
                        p@,
                    ) by {
                        if k < mid {
                            lemma_path_lt_transitive(self.paths@[k]@, self.paths@[mid as int]@, p@);
                        }
                    }
                    lo = mid + 1;
                },
                Ordering::Greater => {
                    assert forall|k: int| mid <= k < n implies path_lt(
                        p@,
                        #[trigger] self.paths@[k]@,
                    ) by {
                        if k > mid {
                            lemma_path_lt_transitive(p@, self.paths@[mid as int]@, self.paths@[k]@);
                        }
                    }
                    hi = mid;
                },
            }
        }
        let ghost before = self.paths@;
        let ghost q = p@;
        self.paths.insert(lo, p);
        assert(self.paths@ == before.insert(lo as int, self.paths@[lo as int]));
        assert forall|k: int| 0 <= k < self.paths@.len() implies #[trigger] self.paths@[k] == (if k < lo {
            before[k]
        } else if k == lo {
            self.paths@[lo as int]
        } else {
            before[k - 1]
        }) by {}
        assert(self.paths@[lo as int]@ == q);
        assert forall|a: int, b: int| 0 <= a < b < self.paths@.len() implies path_lt(
            self.paths@[a]@,
            self.paths@[b]@,
        ) by {
            if a < lo && b > lo {
                lemma_path_lt_transitive(before[a]@, q, before[b - 1]@);
            }
        }
        assert forall|x: Seq<char>| path_set(self.paths@).contains(x) <==> path_set(before).insert(q).contains(x) by {
            if path_set(self.paths@).contains(x) {
                let k = choose|k: int| 0 <= k < self.paths@.len() && self.paths@[k]@ == x;
                if k < lo {
                    assert(before[k]@ == x);
                } else if k > lo {
                    assert(before[k - 1]@ == x);
                }
            }
            if path_set(before).contains(x) {
                let k = choose|k: int| 0 <= k < before.len() && before[k]@ == x;
                if k < lo {
                    assert(self.paths@[k] == before[k]);
                } else {
                    assert(self.paths@[k + 1] == before[k]);
                }
            }
            if x == q {
                assert(self.paths@[lo as int]@ == x);
            }
        }
        assert(path_set(self.paths@) =~= path_set(before).insert(q));
    }

    /// The paths of the set, in order.
    pub fn paths(&self) -> (r: &Vec<String>)
        requires
            self.wf(),
        ensures
            strictly_sorted(r@),
            path_set(r@) == self@,
    {
        &self.paths
    }
}

} // verus!
