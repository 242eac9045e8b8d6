//! Paths relative to a root directory, and back.
use vstd::prelude::*;
use vstd::string::*;

verus! {

/// `root` followed by `rel`, the absolute path of a root-relative one. Roots
/// end with a separator, so nothing is inserted between the two.
pub fn join_root(root: &str, rel: &str) -> (r: String)
    ensures
        r@ == root@ + rel@,
{
    let base = String::from_str(root);
    base.concat(rel)
}

/// `dir` with a separator at its end, added where it is missing.
pub fn with_trailing_separator(dir: String) -> (r: String)
    ensures
        dir@.len() > 0 && dir@.last() == '/' ==> r@ == dir@,
        !(dir@.len() > 0 && dir@.last() == '/') ==> r@ == dir@.push('/'),
{
    let n = dir.as_str().unicode_len();
    if n > 0 && dir.as_str().get_char(n - 1) == '/' {
        dir
    } else {
        let r = dir.concat("/");
        proof {
            reveal_strlit("/");
        }
        assert(r@ =~= dir@.push('/'));
        r
    }
}

/// The part of `full` after `root`, where `full` begins with `root`.
pub fn strip_root(root: &str, full: &str) -> (r: Option<String>)
    ensures
        r is Some <==> root@.len() <= full@.len() && full@.subrange(0, root@.len() as int) == root@,
        r matches Some(s) ==> s@ == full@.subrange(root@.len() as int, full@.len() as int),
{
    let n = root.unicode_len();
    let m = full.unicode_len();
    if n > m {
        return None;
    }
    let head = full.substring_char(0, n);
    if !head_matches(root, head) {
        return None;
    }
    Some(String::from_str(full.substring_char(n, m)))
}

fn head_matches(a: &str, b: &str) -> (r: bool)
    ensures
        r == (a@ == b@),
{
    let x = String::from_str(a);
    let y = String::from_str(b);
    x == y
}

} // verus!
