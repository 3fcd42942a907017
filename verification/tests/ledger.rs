use bm25_cli::ledger::{fits_max_filesize, IndexLedger, IndexStep, COMMIT_BATCH};
use bm25_cli::mtimes::{mtimes_from_json, FileAction, MtimeTable};

fn table(entries: &[(&str, u64)]) -> MtimeTable {
    let mut t = MtimeTable::new();
    for (p, m) in entries {
        t.insert(p.to_string(), *m);
    }
    t
}

#[test]
fn fresh_session_is_unchanged() {
    let l = IndexLedger::new(table(&[("/r/a", 1)]));
    assert!(!l.changed());
    assert_eq!(l.plan_file("/r/a", 1, false), FileAction::Keep);
    assert_eq!(l.plan_file("/r/a", 2, false), FileAction::Replace);
    assert_eq!(l.plan_file("/r/new", 2, false), FileAction::Add);
}

fn walk(files: &[(&str, u64, bool)]) -> Vec<(String, u64, bool)> {
    files.iter().map(|(p, m, r)| (p.to_string(), *m, *r)).collect()
}

#[test]
fn additions_flush_every_batch() {
    let mut l = IndexLedger::new(MtimeTable::new());
    let files: Vec<(String, u64, bool)> = (0..(2 * COMMIT_BATCH + 3)).map(|i| (format!("/r/{i}"), 7, true)).collect();
    let (steps, stale) = l.apply_walk("/r/", &files, false);
    let flushes: Vec<usize> = steps.iter().enumerate().filter(|(_, s)| s.flush).map(|(i, _)| i).collect();
    assert_eq!(flushes, vec![COMMIT_BATCH - 1, 2 * COMMIT_BATCH - 1]);
    assert!(stale.is_empty());
    assert!(l.changed());
    assert_eq!(l.mtimes().len(), 2 * COMMIT_BATCH + 3);
    assert_eq!(l.mtimes().get("/r/0"), Some(7));
}

#[test]
fn batches_count_from_each_walk() {
    let mut l = IndexLedger::new(MtimeTable::new());
    let first: Vec<(String, u64, bool)> = (0..300).map(|i| (format!("/a/{i}"), 1, true)).collect();
    let (steps, _) = l.apply_walk("/a/", &first, false);
    assert!(steps.iter().all(|s| !s.flush));
    let second: Vec<(String, u64, bool)> = (0..300).map(|i| (format!("/b/{i}"), 1, true)).collect();
    let (steps, _) = l.apply_walk("/b/", &second, false);
    assert!(steps.iter().all(|s| !s.flush));
}

#[test]
fn walk_adds_replaces_and_forgets() {
    let mut l = IndexLedger::new(table(&[("/r/a", 1), ("/r/b", 1), ("/r/c", 1), ("/s/c", 1)]));
    let (steps, stale) = l.apply_walk("/r", &walk(&[("/r/a", 1, true), ("/r/b", 2, true), ("/r/new", 5, true), ("/r/blank", 6, false)]), false);
    assert_eq!(
        steps,
        vec![
            IndexStep { path: "/r/b".to_string(), mtime: 2, replace: true, flush: false },
            IndexStep { path: "/r/new".to_string(), mtime: 5, replace: false, flush: false },
        ]
    );
    assert_eq!(stale, vec!["/r/c".to_string()]);
    assert!(l.changed());
    assert_eq!(l.mtimes().get("/r/b"), Some(2));
    assert_eq!(l.mtimes().get("/r/c"), None);
    assert_eq!(l.mtimes().get("/r/blank"), None);
    assert_eq!(l.mtimes().get("/s/c"), Some(1));
}

#[test]
fn unchanged_walk_leaves_session_unchanged() {
    let mut l = IndexLedger::new(table(&[("/r/a", 1)]));
    let (steps, stale) = l.apply_walk("/r", &walk(&[("/r/a", 1, false)]), false);
    assert!(steps.is_empty());
    assert!(stale.is_empty());
    assert!(!l.changed());
}

#[test]
fn forced_walk_replaces_current_files() {
    let mut l = IndexLedger::new(table(&[("/r/a", 1)]));
    let (steps, _) = l.apply_walk("/r", &walk(&[("/r/a", 1, true)]), true);
    assert_eq!(steps, vec![IndexStep { path: "/r/a".to_string(), mtime: 1, replace: true, flush: false }]);
}

#[test]
fn size_limit() {
    assert!(fits_max_filesize(10, None));
    assert!(fits_max_filesize(10, Some(10)));
    assert!(!fits_max_filesize(11, Some(10)));
}

#[test]
fn removed_source_paths_are_forgotten() {
    let mut l = IndexLedger::new(table(&[("/r/a", 1), ("/r/b", 2)]));
    l.forget_each(&["/r/a".to_string(), "/r/zzz".to_string()]);
    assert!(l.changed());
    assert_eq!(l.mtimes().entries(), vec![("/r/b".to_string(), 2)]);
    let mut quiet = IndexLedger::new(table(&[("/r/a", 1)]));
    quiet.forget_each(&[]);
    assert!(!quiet.changed());
}

#[test]
fn second_walk_over_an_unchanged_directory_changes_nothing() {
    // First walk: two readable files and one that is blank; one stale entry.
    let mut first = IndexLedger::new(table(&[("/r/gone", 3), ("/other/x", 4)]));
    let files = walk(&[("/r/a", 10, true), ("/r/b", 11, true), ("/r/blank", 12, false)]);
    let (steps, stale) = first.apply_walk("/r/", &files, false);
    assert_eq!(steps.len(), 2);
    assert_eq!(stale, vec!["/r/gone".to_string()]);
    assert!(first.changed());
    let saved = first.mtimes().entries();

    // Second walk from the saved times; the kept files are not read again.
    let mut second = IndexLedger::new(MtimeTable::from_entries(&saved));
    let again = walk(&[("/r/a", 10, false), ("/r/b", 11, false), ("/r/blank", 12, false)]);
    let (steps, stale) = second.apply_walk("/r/", &again, false);
    assert!(steps.is_empty());
    assert!(stale.is_empty());
    assert!(!second.changed());
    assert_eq!(second.mtimes().len(), 3);
    assert_eq!(second.mtimes().get("/r/a"), Some(10));
    assert_eq!(second.mtimes().get("/other/x"), Some(4));
}

#[test]
fn times_saved_as_json_load_back() {
    let t = table(&[("/r/a", 1), ("/r/\"q\"", 2)]);
    let text = t.to_json();
    let back = mtimes_from_json(&text).unwrap();
    assert_eq!(back.len(), 2);
    assert_eq!(back.get("/r/a"), Some(1));
    assert_eq!(back.get("/r/\"q\""), Some(2));
    let read = mtimes_from_json(r#"{"/x/y": 42}"#).unwrap();
    assert_eq!(read.entries(), vec![("/x/y".to_string(), 42)]);
    assert!(mtimes_from_json("[1, 2]").is_none());
    assert!(mtimes_from_json(r#"{"/x": -1}"#).is_none());
    assert_eq!(mtimes_from_json("{}").unwrap().len(), 0);
}
