use disk_scanner::top::{push_top, FileEntry};

fn sizes(v: &Vec<FileEntry>) -> Vec<u64> {
    v.iter().map(|e| e.size).collect()
}

#[test]
fn keeps_two_largest_sorted() {
    let mut top: Vec<FileEntry> = Vec::new();
    for (i, s) in [10u64, 5, 30, 20].iter().enumerate() {
        push_top(&mut top, FileEntry::new(format!("f{}", i), *s), 2);
    }
    assert_eq!(sizes(&top), vec![30, 20]);
    assert_eq!(top[0].path, "f2");
    assert_eq!(top[1].path, "f3");
}

#[test]
fn never_holds_more_than_limit() {
    let mut top: Vec<FileEntry> = Vec::new();
    for i in 0..100u64 {
        push_top(&mut top, FileEntry::new(format!("f{}", i), (i * 37) % 101), 5);
        assert!(top.len() <= 5);
    }
    assert_eq!(sizes(&top), vec![100, 99, 98, 97, 96]);
}

#[test]
fn fewer_files_than_limit_all_kept() {
    let mut top: Vec<FileEntry> = Vec::new();
    push_top(&mut top, FileEntry::new("a".to_string(), 1), 50);
    push_top(&mut top, FileEntry::new("b".to_string(), 3), 50);
    push_top(&mut top, FileEntry::new("c".to_string(), 2), 50);
    assert_eq!(sizes(&top), vec![3, 2, 1]);
}

#[test]
fn equal_sizes_broken_by_path() {
    let mut top: Vec<FileEntry> = Vec::new();
    push_top(&mut top, FileEntry::new("a".to_string(), 7), 2);
    push_top(&mut top, FileEntry::new("c".to_string(), 7), 2);
    push_top(&mut top, FileEntry::new("b".to_string(), 7), 2);
    assert_eq!(top.len(), 2);
    assert_eq!(top[0].path, "c");
    assert_eq!(top[1].path, "b");
}

#[test]
fn equal_sizes_kept_regardless_of_order() {
    let mut first: Vec<FileEntry> = Vec::new();
    push_top(&mut first, FileEntry::new("a".to_string(), 10), 1);
    push_top(&mut first, FileEntry::new("b".to_string(), 10), 1);
    let mut second: Vec<FileEntry> = Vec::new();
    push_top(&mut second, FileEntry::new("b".to_string(), 10), 1);
    push_top(&mut second, FileEntry::new("a".to_string(), 10), 1);
    assert_eq!(first.len(), 1);
    assert_eq!(first[0].path, "b");
    assert_eq!(second[0].path, "b");
}

#[test]
fn path_order_is_by_character() {
    let mut top: Vec<FileEntry> = Vec::new();
    push_top(&mut top, FileEntry::new("/d/ab".to_string(), 5), 3);
    push_top(&mut top, FileEntry::new("/d/a".to_string(), 5), 3);
    push_top(&mut top, FileEntry::new("/d/é".to_string(), 5), 3);
    push_top(&mut top, FileEntry::new("/d/b".to_string(), 5), 3);
    let paths: Vec<String> = top.iter().map(|e| e.path.clone()).collect();
    assert_eq!(paths, vec!["/d/é".to_string(), "/d/b".to_string(), "/d/ab".to_string()]);
}

#[test]
fn zero_limit_keeps_nothing() {
    let mut top: Vec<FileEntry> = Vec::new();
    push_top(&mut top, FileEntry::new("a".to_string(), 7), 0);
    assert!(top.is_empty());
}

#[test]
fn duplicate_copies_entry() {
    let e = FileEntry::new("x/y".to_string(), 42);
    let d = e.duplicate();
    assert_eq!(d.path, "x/y");
    assert_eq!(d.size, 42);
}
