use bm25_cli::glob::{glob_base_dir, is_glob, walk_keeps};
use bm25_cli::filters::{accepted_by_any, keep_under_root, thread_count, under_root, SourceFilter};
use bm25_cli::mtimes::{FileAction, MtimeTable};

#[test]
fn glob_detection() {
    assert!(is_glob("src/*.rs"));
    assert!(is_glob("a?c"));
    assert!(is_glob("x[ab]"));
    assert!(is_glob("{a,b}"));
    assert!(!is_glob("/home/user/src"));
    assert!(!is_glob(""));
}

#[test]
fn glob_base_directories() {
    assert_eq!(glob_base_dir("src/**/*.rs"), "src");
    assert_eq!(glob_base_dir("/abs/dir/*.md"), "/abs/dir");
    assert_eq!(glob_base_dir("*.rs"), ".");
    assert_eq!(glob_base_dir("/*"), ".");
    assert_eq!(glob_base_dir("docs///*.md"), "docs");
    assert_eq!(glob_base_dir("win\\dir\\*.txt"), "win\\dir");
    assert_eq!(glob_base_dir("plain/path"), "plain/path");
    assert_eq!(glob_base_dir(""), ".");
}

#[test]
fn source_filters() {
    let matched = SourceFilter::matching(&["/r/a.md".to_string(), "/r/b.md".to_string()]);
    assert!(matched.accepts("/r/a.md"));
    assert!(!matched.accepts("/r/c.md"));
    let prefix = SourceFilter::under("/r/docs".to_string());
    assert!(prefix.accepts("/r/docs/x.md"));
    assert!(prefix.accepts("/r/docsextra/x.md"));
    assert!(!prefix.accepts("/r/src/x.md"));
    let all = vec![matched, prefix];
    assert!(accepted_by_any(&all, "/r/b.md"));
    assert!(accepted_by_any(&all, "/r/docs/y"));
    assert!(!accepted_by_any(&all, "/other"));
    assert!(!accepted_by_any(&[], "/r/a.md"));
}

#[test]
fn results_under_root() {
    assert!(under_root("/tmp/x/y", "/tmp/x"));
    assert!(!under_root("/tmp", "/tmp/x"));
    let kept = keep_under_root(
        vec!["/a/1".to_string(), "/b/2".to_string(), "/a/3".to_string()],
        "/a",
    );
    assert_eq!(kept, vec!["/a/1".to_string(), "/a/3".to_string()]);
}

#[test]
fn thread_counts() {
    assert_eq!(thread_count(0, 8), 8);
    assert_eq!(thread_count(-3, 4), 4);
    assert_eq!(thread_count(2, 8), 2);
}

#[test]
fn mtime_table_records_and_forgets() {
    let mut t = MtimeTable::new();
    assert_eq!(t.len(), 0);
    t.insert("/r/a".to_string(), 10);
    t.insert("/r/b".to_string(), 20);
    t.insert("/r/a".to_string(), 11);
    assert_eq!(t.len(), 2);
    assert_eq!(t.get("/r/a"), Some(11));
    assert!(t.contains("/r/b"));
    t.remove("/r/a");
    assert_eq!(t.get("/r/a"), None);
    t.remove("/r/zzz");
    assert_eq!(t.len(), 1);
    assert_eq!(t.entries(), vec![("/r/b".to_string(), 20)]);
}

#[test]
fn file_actions() {
    let mut t = MtimeTable::new();
    assert_eq!(t.plan_file("/r/a", 5, false), FileAction::Add);
    t.insert("/r/a".to_string(), 5);
    assert_eq!(t.plan_file("/r/a", 5, false), FileAction::Keep);
    assert_eq!(t.plan_file("/r/a", 5, true), FileAction::Replace);
    assert_eq!(t.plan_file("/r/a", 6, false), FileAction::Replace);
}

#[test]
fn stale_paths_are_those_not_found_again() {
    let mut t = MtimeTable::new();
    t.insert("/r/a".to_string(), 1);
    t.insert("/r/b".to_string(), 1);
    t.insert("/other/c".to_string(), 1);
    let stale = t.stale_under("/r", &["/r/a".to_string()]);
    assert_eq!(stale, vec!["/r/b".to_string()]);
    let none = t.stale_under("/r", &["/r/a".to_string(), "/r/b".to_string()]);
    assert!(none.is_empty());
}

#[test]
fn build_and_package_directories_are_not_walked() {
    assert!(!walk_keeps(true, "target"));
    assert!(!walk_keeps(true, "node_modules"));
    assert!(walk_keeps(true, "src"));
    assert!(walk_keeps(false, "target"));
    assert!(walk_keeps(true, "targets"));
}

#[test]
fn mtime_tables_round_trip_through_their_entries() {
    let mut t = MtimeTable::new();
    t.insert("/r/a".to_string(), 3);
    t.insert("/r/b".to_string(), 4);
    t.insert("/r/a".to_string(), 5);
    let e = t.entries();
    assert_eq!(e, vec![("/r/a".to_string(), 5), ("/r/b".to_string(), 4)]);
    let back = MtimeTable::from_entries(&e);
    assert_eq!(back.entries(), e);
    let dup = MtimeTable::from_entries(&[("/x".to_string(), 1), ("/x".to_string(), 2)]);
    assert_eq!(dup.get("/x"), Some(2));
    assert_eq!(dup.len(), 1);
}
