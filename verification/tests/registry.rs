use bm25_cli::sources::{is_covered, record_sync, register, sync_options, unregister, Source};

fn src(uri: &str, t: u64) -> Source {
    Source { uri: uri.to_string(), added_at: t, last_synced: t, no_ignore: false, max_filesize: None }
}

fn uris(v: &[Source]) -> Vec<String> {
    v.iter().map(|s| s.uri.clone()).collect()
}

#[test]
fn register_replaces_same_uri() {
    let mut v = vec![src("/a", 1), src("/b", 1)];
    register(&mut v, "/a".to_string(), 9, true, Some(100));
    assert_eq!(uris(&v), vec!["/b".to_string(), "/a".to_string()]);
    let last = v.last().unwrap();
    assert_eq!((last.added_at, last.last_synced, last.no_ignore, last.max_filesize), (9, 9, true, Some(100)));
}

#[test]
fn unregister_drops_all_matches() {
    let mut v = vec![src("/a", 1), src("/b", 1), src("/a", 2)];
    assert!(unregister(&mut v, "/a"));
    assert_eq!(uris(&v), vec!["/b".to_string()]);
    assert!(!unregister(&mut v, "/a"));
    assert_eq!(uris(&v), vec!["/b".to_string()]);
}

#[test]
fn coverage_is_by_path_component() {
    let reg = vec![src("/home/u/proj", 1), src("/home/u/*.md", 1)];
    let roots = vec![Some("/home/u/proj".to_string()), None];
    assert!(is_covered(&reg, &roots, "sub", Some("/home/u/proj/sub")));
    assert!(is_covered(&reg, &roots, ".", Some("/home/u/proj")));
    assert!(!is_covered(&reg, &roots, "x", Some("/home/u/projector")));
    assert!(!is_covered(&reg, &roots, "*.rs", Some("/home/u/proj/a")));
    assert!(!is_covered(&reg, &roots, "missing", None));
}

#[test]
fn sync_uses_registered_options() {
    let mut reg = vec![src("/a", 1)];
    reg[0].no_ignore = true;
    assert_eq!(sync_options(&reg, "/a", false, Some(7)), (true, Some(7)));
    reg[0].max_filesize = Some(3);
    assert_eq!(sync_options(&reg, "/a", false, Some(7)), (true, Some(3)));
    assert_eq!(sync_options(&reg, "/b", false, Some(7)), (false, Some(7)));
}

#[test]
fn sync_records_time_or_registers() {
    let mut reg = vec![src("/a", 1)];
    record_sync(&mut reg, "/a", "/a".to_string(), 50, false, None);
    assert_eq!(reg.len(), 1);
    assert_eq!((reg[0].added_at, reg[0].last_synced), (1, 50));

    record_sync(&mut reg, "/a/sub", "/a/sub".to_string(), 60, false, None);
    assert_eq!(uris(&reg), vec!["/a".to_string()]);

    record_sync(&mut reg, "/b", "/b".to_string(), 70, true, Some(5));
    assert_eq!(uris(&reg), vec!["/a".to_string(), "/b".to_string()]);
    assert_eq!((reg[1].added_at, reg[1].no_ignore, reg[1].max_filesize), (70, true, Some(5)));

    record_sync(&mut reg, "/a/*.md", "/a".to_string(), 80, false, None);
    assert_eq!(uris(&reg), vec!["/b".to_string(), "/a".to_string()]);
    assert_eq!(reg[1].added_at, 80);
}
