use disk_scanner::watch::{classify_change, ChangeKind, PathState};

#[test]
fn created_file_reported_with_size() {
    let e = classify_change(4, ChangeKind::Create, "/r/new.txt".to_string(), PathState::PlainFile(Some(11))).unwrap();
    assert_eq!(e.scan_id, 4);
    assert_eq!(e.path, "/r/new.txt");
    assert!(e.kind == ChangeKind::Create);
    assert_eq!(e.kind.name(), "create");
    assert_eq!(e.size, Some(11));
}

#[test]
fn removed_file_reported_without_size() {
    let e = classify_change(4, ChangeKind::Remove, "/r/new.txt".to_string(), PathState::PlainFile(Some(11))).unwrap();
    assert!(e.kind == ChangeKind::Remove);
    assert_eq!(e.kind.name(), "remove");
    assert_eq!(e.size, None);
}

#[test]
fn vanished_path_is_removal() {
    let e = classify_change(2, ChangeKind::Modify, "/r/gone".to_string(), PathState::Missing).unwrap();
    assert!(e.kind == ChangeKind::Remove);
    assert_eq!(e.size, None);
}

#[test]
fn modified_file_keeps_kind() {
    let e = classify_change(2, ChangeKind::Modify, "/r/f".to_string(), PathState::PlainFile(None)).unwrap();
    assert_eq!(e.kind.name(), "modify");
    assert_eq!(e.size, None);
}

#[test]
fn directories_and_links_not_reported() {
    assert!(classify_change(2, ChangeKind::Create, "/r/dir".to_string(), PathState::Other).is_none());
    assert!(classify_change(2, ChangeKind::Modify, "/r/link".to_string(), PathState::Other).is_none());
}
