//! Exclusion rules in gitignore syntax, matched by the `ignore` crate's
//! `Gitignore`. The matcher is always rooted at `/`.
use crate::engine::chosen;
use crate::index::views;
use ignore::gitignore::{Gitignore, GitignoreBuilder};
use vstd::prelude::*;
use vstd::string::*;

verus! {

#[verifier::external_type_specification]
#[verifier::external_body]
pub struct ExGitignore(Gitignore);

#[verifier::external_type_specification]
#[verifier::external_body]
pub struct ExGitignoreBuilder(GitignoreBuilder);

#[verifier::external_type_specification]
#[verifier::external_body]
pub struct ExIgnoreError(ignore::Error);

/// The rule lines that a builder holds, in the order they were added.
pub uninterp spec fn builder_rules(b: GitignoreBuilder) -> Seq<Seq<char>>;

/// The directory that a builder's rules are matched from.
pub uninterp spec fn builder_root(b: GitignoreBuilder) -> Seq<char>;

/// The rule lines that a compiled matcher holds.
pub uninterp spec fn matcher_rules(g: Gitignore) -> Seq<Seq<char>>;

/// The directory that a compiled matcher's rules are matched from.
pub uninterp spec fn matcher_root(g: Gitignore) -> Seq<char>;

/// What the builder makes of one line: `None` where it does not parse, else
/// the rules that it adds (none for a comment or a blank line, else the line
/// as the builder keeps it).
pub uninterp spec fn line_rules(line: Seq<char>) -> Option<Seq<Seq<char>>>;

/// The rules that the lines of one file add, in order, where every line parses.
pub open spec fn file_rules(lines: Seq<String>) -> Seq<Seq<char>>
    decreases lines.len(),
{
    if lines.len() == 0 {
        seq![]
    } else {
        file_rules(lines.drop_last()) + line_rules(lines.last()@)->0
    }
}

/// The rule lines compile into one matcher.
pub uninterp spec fn rules_compile(rules: Seq<Seq<char>>) -> bool;

/// The last rule of `rules` that matches `path` (a directory where `is_dir`),
/// matched from `root`, is an ignore rule.
pub uninterp spec fn excluded_by(
    root: Seq<char>,
    rules: Seq<Seq<char>>,
    path: Seq<char>,
    is_dir: bool,
) -> bool;

/// The file `path`, or one of the directories above it, is excluded by
/// `rules` matched from `root`.
pub uninterp spec fn excluded_or_parent_by(root: Seq<char>, rules: Seq<Seq<char>>, path: Seq<char>) -> bool;

/// The root that every matcher of this module has.
pub open spec fn separator_root() -> Seq<char> {
    seq!['/']
}

/// `s` without a leading `./`.
pub open spec fn without_dot(s: Seq<char>) -> Seq<char> {
    if s.len() >= 2 && s[0] == '.' && s[1] == '/' {
        s.subrange(2, s.len() as int)
    } else {
        s
    }
}

/// A path that the matcher can walk up from: once `./` and the root `/` are
/// stripped from its front, with at most one more `/`, no `/` is left in front.
pub open spec fn walkable(s: Seq<char>) -> bool {
    let q = without_dot(s);
    !(q.len() >= 3 && q[0] == '/' && q[1] == '/' && q[2] == '/')
}

/// `s` without its leading separators.
pub open spec fn drop_separators(s: Seq<char>) -> Seq<char>
    decreases s.len(),
{
    if s.len() > 0 && s[0] == '/' {
        drop_separators(s.drop_first())
    } else {
        s
    }
}

/// `s` with a run of leading separators cut to one.
pub open spec fn one_separator(s: Seq<char>) -> Seq<char> {
    if s.len() > 0 && s[0] == '/' {
        seq!['/'] + drop_separators(s)
    } else {
        s
    }
}

/// `s` with its leading separators, after a `./`, cut to one: the same file.
pub open spec fn tidy(s: Seq<char>) -> Seq<char> {
    if s.len() >= 2 && s[0] == '.' && s[1] == '/' {
        s.subrange(0, 2) + one_separator(s.subrange(2, s.len() as int))
    } else {
        one_separator(s)
    }
}

proof fn lemma_drop_separators_head(s: Seq<char>)
    ensures
        drop_separators(s).len() == 0 || drop_separators(s)[0] != '/',
    decreases s.len(),
{
    if s.len() > 0 && s[0] == '/' {
        lemma_drop_separators_head(s.drop_first());
    }
}

/// A tidied path can be walked up from.
pub proof fn lemma_tidy_walkable(s: Seq<char>)
    ensures
        walkable(tidy(s)),
{
    let t = tidy(s);
    if s.len() >= 2 && s[0] == '.' && s[1] == '/' {
        let rest = s.subrange(2, s.len() as int);
        lemma_drop_separators_head(rest);
        assert(t.subrange(2, t.len() as int) =~= one_separator(rest));
    } else {
        lemma_drop_separators_head(s);
    }
}

/// Relies on `GitignoreBuilder::new`: no rules yet, rooted at `root` (a
/// leading `./` of which it drops).
#[verifier::external_body]
fn new_builder(root: &str) -> (r: GitignoreBuilder)
    ensures
        builder_rules(r) == Seq::<Seq<char>>::empty(),
        builder_root(r) == without_dot(root@),
{
    GitignoreBuilder::new(root)
}

/// Relies on `GitignoreBuilder::add_line`: with the builder's options left at
/// their defaults, what it makes of a line depends on the line alone. A line
/// that starts with `#`, or is empty, adds nothing; any other line that parses
/// adds at most one glob; one that does not parse leaves the builder as it was.
/// It does not panic: it slices the line only after ASCII tests.
#[verifier::external_body]
fn add_builder_line(b: &mut GitignoreBuilder, source: &str, line: &str) -> (r: Result<(), ignore::Error>)
    ensures
        r is Ok <==> line_rules(line@) is Some,
        builder_root(*final(b)) == builder_root(*old(b)),
        r is Ok ==> builder_rules(*final(b)) == builder_rules(*old(b)) + line_rules(line@)->0,
        r is Ok ==> builder_rules(*final(b)).len() <= builder_rules(*old(b)).len() + 1,
        line@.len() == 0 || line@[0] == '#' ==> r is Ok && builder_rules(*final(b)) == builder_rules(
            *old(b),
        ),
        r is Err ==> builder_rules(*final(b)) == builder_rules(*old(b)),
    no_unwind
{
    b.add_line(Some(std::path::PathBuf::from(source)), line).map(|_| ())
}

/// Relies on `GitignoreBuilder::build`: compiles the rules added so far into a
/// matcher with the same rules and root, or fails where they do not compile.
/// No rules at all compile (into an empty set of globs).
#[verifier::external_body]
fn build_matcher(b: &GitignoreBuilder) -> (r: Result<Gitignore, ignore::Error>)
    ensures
        r is Ok <==> rules_compile(builder_rules(*b)),
        builder_rules(*b).len() == 0 ==> r is Ok,
        r matches Ok(g) ==> matcher_rules(g) == builder_rules(*b) && matcher_root(g) == builder_root(*b),
{
    b.build()
}

/// Relies on `Gitignore::matched`: whether the last rule that matches `path`
/// (a directory where `is_dir`) is an ignore rule. A matcher without rules
/// matches nothing.
#[verifier::external_body]
fn matcher_excludes(g: &Gitignore, path: &str, is_dir: bool) -> (r: bool)
    ensures
        r == excluded_by(matcher_root(*g), matcher_rules(*g), path@, is_dir),
        matcher_rules(*g).len() == 0 ==> !r,
{
    g.matched(path, is_dir).is_ignore()
}

/// Relies on `Gitignore::matched_path_or_any_parents`: whether the file `path`,
/// or a directory above it, is ignored. It strips `./`, the root and one more
/// `/` from the front of the path's bytes, and panics where a `/` is left; with
/// the root `/`, `walkable` rules that out. It tests the file itself first, as
/// `matched` does, and a matcher without rules matches nothing.
#[verifier::external_body]
fn matcher_excludes_path_or_parent(g: &Gitignore, path: &str) -> (r: bool)
    requires
        matcher_root(*g) == separator_root(),
        walkable(path@),
    ensures
        r == excluded_or_parent_by(matcher_root(*g), matcher_rules(*g), path@),
        excluded_by(matcher_root(*g), matcher_rules(*g), path@, false) ==> r,
        matcher_rules(*g).len() == 0 ==> !r,
{
    g.matched_path_or_any_parents(path, false).is_ignore()
}

/// `s` with its leading separators, after a `./`, cut to one.
pub fn tidy_path(s: &str) -> (r: String)
    ensures
        r@ == tidy(s@),
{
    let n = s.unicode_len();
    let start: usize = if n >= 2 && s.get_char(0) == '.' && s.get_char(1) == '/' {
        2
    } else {
        0
    };
    let mut k: usize = start;
    while k < n && s.get_char(k) == '/'
        invariant
            start <= k <= n == s@.len(),
            start == 2 ==> n >= 2,
            drop_separators(s@.subrange(start as int, n as int)) == drop_separators(
                s@.subrange(k as int, n as int),
            ),
            k > start ==> s@[start as int] == '/',
        decreases n - k,
    {
        assert(s@.subrange(k as int, n as int).drop_first() =~= s@.subrange(k as int + 1, n as int));
        k = k + 1;
    }
    let ghost rest = s@.subrange(start as int, n as int);
    assert(drop_separators(s@.subrange(k as int, n as int)) == s@.subrange(k as int, n as int));
    if k == start {
        assert(s@ =~= s@.subrange(0, start as int) + rest);
        proof {
            if start == 0 {
                assert(rest =~= s@);
            }
        }
        String::from_str(s)
    } else {
        let head = String::from_str(s.substring_char(0, start));
        let r = head.concat("/").concat(s.substring_char(k, n));
        proof {
            reveal_strlit("/");
            if start == 0 {
                assert(rest =~= s@);
            }
        }
        assert(r@ =~= tidy(s@));
        r
    }
}

/// `s` without the byte order marks at its front.
pub open spec fn drop_byte_order_marks(s: Seq<char>) -> Seq<char>
    decreases s.len(),
{
    if s.len() > 0 && s[0] == '\u{feff}' {
        drop_byte_order_marks(s.drop_first())
    } else {
        s
    }
}

/// The first line of a rule file without the byte order marks at its front,
/// as git reads it.
pub fn without_byte_order_marks(line: &str) -> (r: String)
    ensures
        r@ == drop_byte_order_marks(line@),
{
    let n = line.unicode_len();
    let mut k: usize = 0;
    assert(line@.subrange(0, n as int) =~= line@);
    while k < n && line.get_char(k) == '\u{feff}'
        invariant
            k <= n == line@.len(),
            drop_byte_order_marks(line@) == drop_byte_order_marks(line@.subrange(k as int, n as int)),
        decreases n - k,
    {
        assert(line@.subrange(k as int, n as int).drop_first() =~= line@.subrange(k as int + 1, n as int));
        k = k + 1;
    }
    assert(line@.subrange(0, n as int) =~= line@);
    String::from_str(line.substring_char(k, n))
}

/// A rule that could not be parsed, or a rule set that could not be compiled.
pub struct ExclusionError {
    pub source: ignore::Error,
}

/// Exclusion rules being gathered.
pub struct ExclusionsBuilder {
    builder: GitignoreBuilder,
}

impl ExclusionsBuilder {
    #[verifier::type_invariant]
    spec fn rooted(&self) -> bool {
        builder_root(self.builder) == separator_root()
    }

    /// The rule lines gathered so far.
    pub closed spec fn rules(&self) -> Seq<Seq<char>> {
        builder_rules(self.builder)
    }

    /// No rules yet.
    pub fn new() -> (r: ExclusionsBuilder)
        ensures
            r.rules() == Seq::<Seq<char>>::empty(),
    {
        let b = new_builder("/");
        proof {
            reveal_strlit("/");
        }
        assert(("/")@ =~= separator_root());
        ExclusionsBuilder { builder: b }
    }

    /// Adds one line of the rule file named `source`; a line that does not
    /// parse is an error and adds nothing, and so does a comment or a blank line.
    pub fn add_rule(&mut self, source: &str, line: &str) -> (r: Result<(), ExclusionError>)
        ensures
            r is Ok <==> line_rules(line@) is Some,
            r is Ok ==> final(self).rules() == old(self).rules() + line_rules(line@)->0,
            line@.len() == 0 || line@[0] == '#' ==> r is Ok && final(self).rules() == old(
                self,
            ).rules(),
            r is Err ==> final(self).rules() == old(self).rules(),
    {
        proof {
            use_type_invariant(&*self);
        }
        let added = add_builder_line(&mut self.builder, source, line);
        match added {
            Ok(()) => Ok(()),
            Err(e) => Err(ExclusionError { source: e }),
        }
    }

    /// Adds the lines of the rule file named `source`, in order, and stops at
    /// the first line that does not parse: the result is `Ok` exactly when
    /// every line parses.
    pub fn add_rule_file(&mut self, source: &str, lines: &Vec<String>) -> (r: Result<(), ExclusionError>)
        ensures
            r is Ok <==> forall|i: int|
                0 <= i < lines@.len() ==> (#[trigger] line_rules(lines@[i]@)) is Some,
            r is Ok ==> final(self).rules() == old(self).rules() + file_rules(lines@),
    {
        let mut i: usize = 0;
        while i < lines.len()
            invariant
                i <= lines@.len(),
                forall|k: int| 0 <= k < i ==> (#[trigger] line_rules(lines@[k]@)) is Some,
                self.rules() == old(self).rules() + file_rules(lines@.take(i as int)),
            decreases lines@.len() - i,
        {
            match self.add_rule(source, lines[i].as_str()) {
                Ok(()) => {},
                Err(e) => {
                    return Err(e);
                },
            }
            assert(lines@.take(i as int + 1).drop_last() =~= lines@.take(i as int));
            assert(old(self).rules() + file_rules(lines@.take(i as int + 1)) =~= old(self).rules()
                + file_rules(lines@.take(i as int)) + line_rules(lines@[i as int]@)->0);
            i = i + 1;
        }
        assert(lines@.take(lines@.len() as int) =~= lines@);
        Ok(())
    }

    /// The matcher of the rules gathered so far, where they compile.
    pub fn build(&self) -> (r: Result<Exclusions, ExclusionError>)
        ensures
            r is Ok <==> rules_compile(self.rules()),
            self.rules().len() == 0 ==> r is Ok,
            r matches Ok(e) ==> e.rules() == self.rules(),
    {
        proof {
            use_type_invariant(self);
        }
        match build_matcher(&self.builder) {
            Ok(m) => Ok(Exclusions { matcher: m }),
            Err(e) => Err(ExclusionError { source: e }),
        }
    }
}

/// Compiled exclusion rules, read-only once built.
pub struct Exclusions {
    matcher: Gitignore,
}

impl Exclusions {
    #[verifier::type_invariant]
    spec fn rooted(&self) -> bool {
        matcher_root(self.matcher) == separator_root()
    }

    /// The rule lines of the matcher.
    pub closed spec fn rules(&self) -> Seq<Seq<char>> {
        matcher_rules(self.matcher)
    }

    /// The rules exclude `path` itself, a directory where `is_dir`.
    pub open spec fn excludes(&self, path: Seq<char>, is_dir: bool) -> bool {
        excluded_by(separator_root(), self.rules(), path, is_dir)
    }

    /// The rules exclude the file `path` itself, or, once its leading
    /// separators are tidied, the file or a directory above it.
    pub open spec fn excludes_path_or_parent(&self, path: Seq<char>) -> bool {
        self.excludes(path, false) || excluded_or_parent_by(separator_root(), self.rules(), tidy(path))
    }

    /// For each path of `paths` joined to `root`, whether the rules exclude the
    /// file itself, or, where `with_parents`, the file or a directory above it.
    /// The flag of `paths[i]` stands at `i`.
    pub fn flags(&self, root: &str, paths: &Vec<String>, with_parents: bool) -> (r: Vec<bool>)
        ensures
            r@.len() == paths@.len(),
            forall|i: int|
                0 <= i < paths@.len() ==> #[trigger] r@[i] == if with_parents {
                    self.excludes_path_or_parent(root@ + paths@[i]@)
                } else {
                    self.excludes(root@ + paths@[i]@, false)
                },
    {
        proof {
            use_type_invariant(self);
        }
        let mut out: Vec<bool> = Vec::new();
        let mut i: usize = 0;
        while i < paths.len()
            invariant
                i <= paths@.len(),
                out@.len() == i,
                matcher_root(self.matcher) == separator_root(),
                forall|k: int|
                    0 <= k < i ==> #[trigger] out@[k] == if with_parents {
                        self.excludes_path_or_parent(root@ + paths@[k]@)
                    } else {
                        self.excludes(root@ + paths@[k]@, false)
                    },
            decreases paths@.len() - i,
        {
            let full = crate::paths::join_root(root, paths[i].as_str());
            let itself = matcher_excludes(&self.matcher, full.as_str(), false);
            let hit = if with_parents && !itself {
                let walk = tidy_path(full.as_str());
                proof {
                    lemma_tidy_walkable(full@);
                }
                matcher_excludes_path_or_parent(&self.matcher, walk.as_str())
            } else {
                itself
            };
            out.push(hit);
            i = i + 1;
        }
        out
    }

    /// The walked files of `walked` (root-relative) that the rules do not
    /// exclude, in order.
    pub open spec fn kept(&self, root: Seq<char>, walked: Seq<String>) -> Seq<Seq<char>> {
        chosen(|i: int| walked[i]@, |i: int| !self.excludes(root + walked[i]@, false), walked.len())
    }

    /// Leaves out of a walk's files those that the rules exclude.
    pub fn kept_files(&self, root: &str, walked: &Vec<String>) -> (r: Vec<String>)
        ensures
            views(r@) == self.kept(root@, walked@),
    {
        proof {
            use_type_invariant(self);
        }
        let mut out: Vec<String> = Vec::new();
        let mut i: usize = 0;
        while i < walked.len()
            invariant
                i <= walked@.len(),
                matcher_root(self.matcher) == separator_root(),
                views(out@) == chosen(
                    |i: int| walked@[i]@,
                    |i: int| !self.excludes(root@ + walked@[i]@, false),
                    i as nat,
                ),
            decreases walked@.len() - i,
        {
            let full = crate::paths::join_root(root, walked[i].as_str());
            if !matcher_excludes(&self.matcher, full.as_str(), false) {
                let ghost before = out@;
                out.push(walked[i].clone());
                assert(views(out@) =~= views(before).push(walked@[i as int]@));
            }
            i = i + 1;
        }
        out
    }

    /// Whether the walk of the live root leaves out the entry at the absolute
    /// path `path`, a directory where `is_dir`, and so all below it.
    pub fn prunes(&self, path: &str, is_dir: bool) -> (r: bool)
        ensures
            r == self.excludes(path@, is_dir),
    {
        proof {
            use_type_invariant(self);
        }
        matcher_excludes(&self.matcher, path, is_dir)
    }
}

} // verus!
