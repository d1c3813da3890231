use disk_scanner::scan::{
    single_file_snapshot, EntryInfo, Traversal, DEFAULT_TOP_N, EMIT_INTERVAL_MS,
};

fn s(x: &str) -> String {
    x.to_string()
}

#[test]
fn completed_scan_ranks_largest() {
    let mut t = Traversal::new(s("/r"), 7, 2);
    assert_eq!(t.next_directory(false), Some(s("/r")));
    for (i, size) in [10u64, 5, 30, 20].iter().enumerate() {
        assert!(t.keep_going(false));
        t.visit(EntryInfo::File(format!("/r/f{}", i), *size), 0);
    }
    assert_eq!(t.next_directory(false), None);
    let (done, cancelled) = t.finish();
    assert!(!cancelled);
    assert_eq!(done.scan_id, 7);
    assert_eq!(done.scanned_files, 4);
    assert_eq!(done.scanned_bytes, 65);
    assert_eq!(done.current_path, "/r/f3");
    let sizes: Vec<u64> = done.top_files.iter().map(|e| e.size).collect();
    assert_eq!(sizes, vec![30, 20]);
}

#[test]
fn directories_are_queued_breadth_first() {
    let mut t = Traversal::new(s("/r"), 1, DEFAULT_TOP_N);
    assert_eq!(t.next_directory(false), Some(s("/r")));
    t.visit(EntryInfo::Directory(s("/r/a")), 0);
    t.visit(EntryInfo::Directory(s("/r/b")), 0);
    assert_eq!(t.next_directory(false), Some(s("/r/a")));
    t.visit(EntryInfo::Directory(s("/r/a/c")), 0);
    assert_eq!(t.next_directory(false), Some(s("/r/b")));
    assert_eq!(t.next_directory(false), Some(s("/r/a/c")));
    assert_eq!(t.next_directory(false), None);
    let (done, cancelled) = t.finish();
    assert!(!cancelled);
    assert_eq!(done.scanned_files, 0);
    assert_eq!(done.current_path, "/r/a/c");
}

#[test]
fn symlinks_never_counted_or_followed() {
    let mut t = Traversal::new(s("/r"), 1, DEFAULT_TOP_N);
    t.next_directory(false);
    t.visit(EntryInfo::Symlink, 1000);
    t.visit(EntryInfo::Unreadable, 1000);
    t.visit(EntryInfo::File(s("/r/real"), 3), 0);
    t.visit(EntryInfo::Symlink, 1000);
    assert_eq!(t.next_directory(false), None);
    let (done, _) = t.finish();
    assert_eq!(done.scanned_files, 1);
    assert_eq!(done.top_files.len(), 1);
    assert_eq!(done.top_files[0].path, "/r/real");
    assert_eq!(done.current_path, "/r/real");
}

#[test]
fn other_entries_only_move_current_path() {
    let mut t = Traversal::new(s("/r"), 1, DEFAULT_TOP_N);
    t.next_directory(false);
    assert!(!t.visit(EntryInfo::Other(s("/r/fifo")), 1000));
    let p = t.snapshot();
    assert_eq!(p.scanned_files, 0);
    assert_eq!(p.current_path, "/r/fifo");
    assert!(p.top_files.is_empty());
}

#[test]
fn progress_due_only_after_interval() {
    let mut t = Traversal::new(s("/r"), 1, DEFAULT_TOP_N);
    t.next_directory(false);
    assert!(!t.visit(EntryInfo::File(s("/r/a"), 1), EMIT_INTERVAL_MS - 1));
    assert!(t.visit(EntryInfo::File(s("/r/b"), 1), EMIT_INTERVAL_MS));
    assert!(!t.visit(EntryInfo::Directory(s("/r/d")), 5000));
    let p = t.snapshot();
    assert_eq!(p.scanned_files, 2);
    assert_eq!(p.scanned_bytes, 2);
}

#[test]
fn cancel_stops_scan_for_good() {
    let mut t = Traversal::new(s("/r"), 3, DEFAULT_TOP_N);
    assert_eq!(t.next_directory(false), Some(s("/r")));
    t.visit(EntryInfo::Directory(s("/r/a")), 0);
    t.visit(EntryInfo::File(s("/r/f"), 9), 0);
    assert!(!t.keep_going(true));
    assert!(!t.keep_going(false));
    assert!(!t.visit(EntryInfo::File(s("/r/g"), 9), 10_000));
    assert_eq!(t.next_directory(false), None);
    let (done, cancelled) = t.finish();
    assert!(cancelled);
    assert_eq!(done.scan_id, 3);
    assert_eq!(done.scanned_files, 1);
    assert_eq!(done.scanned_bytes, 9);
}

#[test]
fn cancel_seen_at_directory_boundary() {
    let mut t = Traversal::new(s("/r"), 3, DEFAULT_TOP_N);
    assert_eq!(t.next_directory(true), None);
    let (done, cancelled) = t.finish();
    assert!(cancelled);
    assert_eq!(done.scanned_files, 0);
}

#[test]
fn byte_total_saturates() {
    let mut t = Traversal::new(s("/r"), 1, DEFAULT_TOP_N);
    t.next_directory(false);
    t.visit(EntryInfo::File(s("/r/a"), u64::MAX), 0);
    t.visit(EntryInfo::File(s("/r/b"), 5), 0);
    let p = t.snapshot();
    assert_eq!(p.scanned_bytes, u64::MAX);
    assert_eq!(p.scanned_files, 2);
}

#[test]
fn file_root_is_single_scan() {
    let p = single_file_snapshot(s("/r/only.bin"), 1234, 9, DEFAULT_TOP_N);
    assert_eq!(p.scan_id, 9);
    assert_eq!(p.scanned_files, 1);
    assert_eq!(p.scanned_bytes, 1234);
    assert_eq!(p.current_path, "/r/only.bin");
    assert_eq!(p.top_files.len(), 1);
    assert_eq!(p.top_files[0].path, "/r/only.bin");
    assert_eq!(p.top_files[0].size, 1234);
}
