//! The order of paths: lexicographic over their characters, which for UTF-8
//! text is the byte order that `str` compares by.
use core::cmp::Ordering;
use vstd::prelude::*;

verus! {

/// `a` sorts strictly before `b`.
pub open spec fn path_lt(a: Seq<char>, b: Seq<char>) -> bool
    decreases a.len(),
{
    if a.len() == 0 {
        b.len() > 0
    } else if b.len() == 0 {
        false
    } else if (a[0] as int) < (b[0] as int) {
        true
    } else if (a[0] as int) > (b[0] as int) {
        false
    } else {
        path_lt(a.drop_first(), b.drop_first())
    }
}

/// `a` sorts before `b` or is `b`.
pub open spec fn path_le(a: Seq<char>, b: Seq<char>) -> bool {
    path_lt(a, b) || a == b
}

pub proof fn lemma_path_lt_irreflexive(a: Seq<char>)
    ensures
        !path_lt(a, a),
    decreases a.len(),
{
    if a.len() > 0 {
        lemma_path_lt_irreflexive(a.drop_first());
    }
}

pub proof fn lemma_path_lt_transitive(a: Seq<char>, b: Seq<char>, c: Seq<char>)
    requires
        path_lt(a, b),
        path_lt(b, c),
    ensures
        path_lt(a, c),
    decreases a.len(),
{
    if a.len() > 0 && b.len() > 0 && c.len() > 0 {
        if a[0] as int == b[0] as int && b[0] as int == c[0] as int {
            lemma_path_lt_transitive(a.drop_first(), b.drop_first(), c.drop_first());
        }
    }
}

/// Relies on `str::cmp`: strings compare byte by byte, lexicographically, and
/// the UTF-8 byte order of two strings is the order of their characters.
#[verifier::external_body]
pub(crate) fn compare_paths(a: &str, b: &str) -> (r: Ordering)
    ensures
        r == Ordering::Less <==> path_lt(a@, b@),
        r == Ordering::Equal <==> a@ == b@,
        r == Ordering::Greater <==> path_lt(b@, a@),
{
    a.cmp(b)
}

} // verus!
