use archdiff::engine::{
    backup_candidates, backup_drift, deleted_paths, repo_drift, untracked_pass, BackupEntry,
    RepoObservation,
};
use archdiff::exclusion::{tidy_path, without_byte_order_marks, ExclusionsBuilder};
use archdiff::index::PathIndex;
use archdiff::paths::{join_root, strip_root, with_trailing_separator};
use archdiff::report::{build_report, Record, Tag};

fn strings(v: &[&str]) -> Vec<String> {
    v.iter().map(|s| s.to_string()).collect()
}

fn lines(records: &[Record], root: &str) -> Vec<String> {
    records.iter().map(|r| r.line(root)).collect()
}

fn entry(path: &str, hash: &str) -> BackupEntry {
    BackupEntry { path: path.to_string(), hash: hash.to_string() }
}

fn observation(path: &str, reference: Option<&str>, live: Option<&str>) -> RepoObservation {
    RepoObservation {
        path: path.to_string(),
        reference_hash: reference.map(|s| s.to_string()),
        live_hash: live.map(|s| s.to_string()),
    }
}

#[test]
fn untracked_file_is_reported() {
    let root = "/tmp/live/";
    let out = untracked_pass(strings(&["usr/bin/ls"]), strings(&["foo.txt"]));
    assert_eq!(out.untracked, strings(&["foo.txt"]));
    assert_eq!(out.missing, strings(&["usr/bin/ls"]));
    let report = build_report(&out.untracked, &vec![], &vec![], &vec![]);
    assert_eq!(lines(&report, root), strings(&["? /tmp/live/foo.txt"]));
}

#[test]
fn deleted_file_is_reported() {
    let out = untracked_pass(strings(&["etc/app.conf"]), vec![]);
    assert!(out.untracked.is_empty());
    assert_eq!(out.missing, strings(&["etc/app.conf"]));
    let deleted = deleted_paths(&out.missing, &vec![false], &vec![false]);
    assert_eq!(deleted, strings(&["etc/app.conf"]));
    let report = build_report(&vec![], &vec![], &deleted, &vec![]);
    assert_eq!(lines(&report, "/"), strings(&["D /etc/app.conf"]));
}

#[test]
fn backup_drift_is_reported() {
    let cands = backup_candidates(&vec![entry("etc/app.conf", "abc123")], &vec![]);
    assert_eq!(cands.len(), 1);
    let backup = backup_drift(&cands, &vec![false], &vec![Some("def456".to_string())]);
    assert_eq!(backup, strings(&["etc/app.conf"]));
    let report = build_report(&vec![], &vec![], &vec![], &backup);
    assert_eq!(lines(&report, "/"), strings(&["B /etc/app.conf"]));
}

#[test]
fn repo_drift_is_reported_and_leaves_backup_map() {
    let obs = vec![observation("etc/app.conf", Some("abc123"), Some("def456"))];
    let repo = repo_drift(&obs);
    assert_eq!(repo, strings(&["etc/app.conf"]));
    let cands = backup_candidates(&vec![entry("etc/app.conf", "zzz")], &obs);
    assert!(cands.is_empty());
    let report = build_report(&vec![], &repo, &vec![], &vec![]);
    assert_eq!(lines(&report, "/"), strings(&["R /etc/app.conf"]));
}

#[test]
fn exclusion_suppresses_every_report() {
    let mut b = ExclusionsBuilder::new();
    assert!(b.add_rule("/etc/archdiff/ignore/base", "/etc/secret.conf").is_ok());
    let ex = match b.build() {
        Ok(e) => e,
        Err(_) => panic!("rules should compile"),
    };
    let owned = strings(&["etc/secret.conf"]);
    let out = untracked_pass(owned, vec![]);
    let flags = ex.flags("/", &out.missing, false);
    assert_eq!(flags, vec![true]);
    let deleted = deleted_paths(&out.missing, &flags, &vec![false]);
    assert!(deleted.is_empty());
    let cands = backup_candidates(&vec![entry("etc/secret.conf", "abc123")], &vec![]);
    let paths: Vec<String> = cands.iter().map(|c| c.path.clone()).collect();
    let parent_flags = ex.flags("/", &paths, true);
    assert_eq!(parent_flags, vec![true]);
    let backup = backup_drift(&cands, &parent_flags, &vec![Some("def456".to_string())]);
    assert!(backup.is_empty());
    assert!(ex.prunes("/etc/secret.conf", false));
    assert!(!ex.prunes("/etc/other.conf", false));
    let report = build_report(&vec![], &vec![], &deleted, &backup);
    assert!(report.is_empty());
}

#[test]
fn excluded_directory_covers_its_files_through_parents() {
    let mut b = ExclusionsBuilder::new();
    assert!(b.add_rule("/rules", "/var/cache/").is_ok());
    let ex = match b.build() {
        Ok(e) => e,
        Err(_) => panic!("rules should compile"),
    };
    let flags = ex.flags("/", &strings(&["var/cache/pkg/a.tar", "var/lib/x"]), true);
    assert_eq!(flags, vec![true, false]);
    assert!(ex.prunes("/var/cache", true));
}

#[test]
fn malformed_rule_is_an_error() {
    let mut b = ExclusionsBuilder::new();
    assert!(b.add_rule("/rules", "[z-a]").is_err());
}

#[test]
fn found_owned_files_leave_the_missing_set() {
    let owned = strings(&["b", "a", "c", "a"]);
    let walked = strings(&["c", "x", "a"]);
    let out = untracked_pass(owned, walked);
    assert_eq!(out.untracked, strings(&["x"]));
    assert_eq!(out.missing, strings(&["b"]));
}

#[test]
fn present_file_is_not_deleted() {
    let missing = strings(&["a", "b", "c"]);
    let deleted = deleted_paths(&missing, &vec![false, false, true], &vec![true, false, false]);
    assert_eq!(deleted, strings(&["b"]));
}

#[test]
fn unknown_digests_are_skipped() {
    let obs = vec![
        observation("a", None, Some("1")),
        observation("b", Some("1"), None),
        observation("c", Some("1"), Some("1")),
        observation("d", Some("1"), Some("2")),
    ];
    assert_eq!(repo_drift(&obs), strings(&["d"]));
    let cands = vec![entry("x", "1"), entry("y", "1"), entry("z", "1")];
    let live = vec![None, Some("1".to_string()), Some("2".to_string())];
    assert_eq!(backup_drift(&cands, &vec![false, false, false], &live), strings(&["z"]));
}

#[test]
fn later_backup_record_wins() {
    let entries = vec![entry("etc/a", "old"), entry("etc/b", "1"), entry("etc/a", "new")];
    let cands = backup_candidates(&entries, &vec![observation("etc/b", None, None)]);
    assert_eq!(cands.len(), 1);
    assert_eq!(cands[0].path, "etc/a");
    assert_eq!(cands[0].hash, "new");
    let drift = backup_drift(&cands, &vec![false], &vec![Some("old".to_string())]);
    assert_eq!(drift, strings(&["etc/a"]));
}

#[test]
fn report_is_sorted_by_path_then_tag() {
    let report = build_report(
        &strings(&["usr/z", "etc/app.conf", "é"]),
        &strings(&["etc/app.conf"]),
        &strings(&["a/b", "usr/z"]),
        &strings(&["etc/b"]),
    );
    assert_eq!(
        lines(&report, "/"),
        strings(&[
            "D /a/b",
            "? /etc/app.conf",
            "R /etc/app.conf",
            "B /etc/b",
            "? /usr/z",
            "D /usr/z",
            "? /é",
        ])
    );
}

#[test]
fn report_is_the_same_whatever_the_order_of_findings() {
    let first = build_report(&strings(&["b", "a", "c", "a"]), &vec![], &strings(&["d"]), &vec![]);
    let second = build_report(&strings(&["c", "a", "b"]), &vec![], &strings(&["d", "d"]), &vec![]);
    assert_eq!(lines(&first, "/r/"), lines(&second, "/r/"));
    assert_eq!(lines(&first, "/r/"), strings(&["? /r/a", "? /r/b", "? /r/c", "D /r/d"]));
}

#[test]
fn repo_and_backup_never_share_a_path() {
    let obs = vec![observation("etc/x", Some("1"), Some("2"))];
    let entries = vec![entry("etc/x", "0"), entry("etc/y", "0")];
    let repo = repo_drift(&obs);
    let cands = backup_candidates(&entries, &obs);
    let backup = backup_drift(&cands, &vec![false], &vec![Some("9".to_string())]);
    assert_eq!(repo, strings(&["etc/x"]));
    assert_eq!(backup, strings(&["etc/y"]));
}

#[test]
fn path_index_sorts_and_collapses_repeats() {
    let idx = PathIndex::new(strings(&["m", "b", "z", "b", "a"]));
    assert_eq!(idx.paths(), &strings(&["a", "b", "m", "z"]));
    assert!(idx.contains("m"));
    assert!(idx.contains("a"));
    assert!(!idx.contains("c"));
    assert!(!idx.contains(""));
    let empty = PathIndex::new(vec![]);
    assert!(!empty.contains("a"));
}

#[test]
fn root_prefix_is_stripped_and_joined() {
    assert_eq!(strip_root("/tmp/live/", "/tmp/live/foo.txt"), Some("foo.txt".to_string()));
    assert_eq!(strip_root("/tmp/live/", "/tmp/other/foo.txt"), None);
    assert_eq!(strip_root("/tmp/live/", "/tmp"), None);
    assert_eq!(strip_root("/", "/"), Some(String::new()));
    assert_eq!(join_root("/tmp/live/", "foo.txt"), "/tmp/live/foo.txt");
    assert_eq!(with_trailing_separator("/usr/share/archdiff".to_string()), "/usr/share/archdiff/");
    assert_eq!(with_trailing_separator("/".to_string()), "/");
    assert_eq!(with_trailing_separator(String::new()), "/");
}

#[test]
fn tag_symbols() {
    assert_eq!(Tag::Untracked.symbol(), '?');
    assert_eq!(Tag::RepoDrift.symbol(), 'R');
    assert_eq!(Tag::Deleted.symbol(), 'D');
    assert_eq!(Tag::BackupDrift.symbol(), 'B');
    let r = Record { tag: Tag::Deleted, path: "etc/x".to_string() };
    assert_eq!(r.line("/srv/"), "D /srv/etc/x");
}

#[test]
fn leading_separators_are_cut_to_one() {
    assert_eq!(tidy_path("///etc/x"), "/etc/x");
    assert_eq!(tidy_path("/etc/x"), "/etc/x");
    assert_eq!(tidy_path(".////etc/x"), ".//etc/x");
    assert_eq!(tidy_path("etc//x"), "etc//x");
    assert_eq!(tidy_path(""), "");
}

#[test]
fn repeated_separators_in_root_do_not_stop_the_parent_check() {
    let mut b = ExclusionsBuilder::new();
    assert!(b.add_rule("/rules", "/etc/secret/").is_ok());
    let ex = match b.build() {
        Ok(e) => e,
        Err(_) => panic!("rules should compile"),
    };
    let flags = ex.flags("///", &strings(&["etc/secret/key", "etc/public"]), true);
    assert_eq!(flags, vec![true, false]);
    let flags = ex.flags("/", &strings(&["/etc/secret/key"]), true);
    assert_eq!(flags, vec![true]);
}

#[test]
fn rule_file_with_a_malformed_line_is_an_error() {
    let mut b = ExclusionsBuilder::new();
    assert!(b.add_rule_file("/rules", &strings(&["# comment", "", "/tmp/"])).is_ok());
    assert!(b.add_rule_file("/other", &strings(&["/var/log/", "[z-a]", "/srv/"])).is_err());
    let ex = match b.build() {
        Ok(e) => e,
        Err(_) => panic!("accepted rules should compile"),
    };
    assert!(ex.prunes("/tmp", true));
    assert!(ex.prunes("/var/log", true));
    assert!(!ex.prunes("/srv", true));
}

#[test]
fn path_index_grows_in_order() {
    let mut idx = PathIndex::new(vec![]);
    for p in ["m", "b", "z", "b", "a"] {
        idx.insert(p.to_string());
    }
    assert_eq!(idx.paths(), &strings(&["a", "b", "m", "z"]));
    assert!(idx.contains("z"));
    assert!(!idx.contains("c"));
}

#[test]
fn byte_order_marks_leave_the_first_line() {
    assert_eq!(without_byte_order_marks("\u{feff}/etc/x"), "/etc/x");
    assert_eq!(without_byte_order_marks("\u{feff}\u{feff}a"), "a");
    assert_eq!(without_byte_order_marks("a\u{feff}"), "a\u{feff}");
    assert_eq!(without_byte_order_marks(""), "");
}

#[test]
fn excluded_walked_files_are_left_out() {
    let mut b = ExclusionsBuilder::new();
    assert!(b.add_rule_file("/rules", &strings(&["*.log", "/srv/"])).is_ok());
    let ex = match b.build() {
        Ok(e) => e,
        Err(_) => panic!("rules should compile"),
    };
    let kept = ex.kept_files("/", &strings(&["var/a.log", "etc/x", "srv", "home/u/b.log"]));
    assert_eq!(kept, strings(&["etc/x", "srv"]));
}

#[test]
fn no_rules_exclude_nothing() {
    let b = ExclusionsBuilder::new();
    let ex = match b.build() {
        Ok(e) => e,
        Err(_) => panic!("no rules should compile"),
    };
    assert_eq!(ex.flags("/", &strings(&["etc/x"]), false), vec![false]);
    assert_eq!(ex.flags("/", &strings(&["etc/x"]), true), vec![false]);
    assert!(!ex.prunes("/etc", true));
}
